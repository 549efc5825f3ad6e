//! The categorized ("binnacle") report: split sessions aggregated by
//! month, within a month by day, and within a day by category, with each
//! category's distinct task subjects and total time.  Categories of a day
//! are kept sorted by name; an uncategorized session is reported under a
//! fixed label.

use vstd::prelude::*;

use crate::binnacle_body_parser::{category_text, parse, subject_text};
use crate::dates::{day_of, lemma_day_bounds, MAX_ABS_TIMESTAMP, MAX_DAY};
use crate::dates::civil_day;
use crate::parser::{civil_dur_sum, lemma_dur_sum_concat, lemma_split_props, GCivil, GSession,
    NaiveSession, SessionTZ};
use crate::summary::{lemma_stream_props, lemma_stream_total, lemma_sessions_sum_bound, month_id,
    month_of, offs_int, sessions_dur_sum, split_stream, subs_ok, summarize_pre, MonthId};
use crate::summary::lemma_sum_take_le;
use crate::text::{lemma_lex_antisym, lemma_lex_total, lex_le, lex_lt, str_le};

verus! {

/// A task: the subject of a categorized session.
#[derive(Debug)]
pub struct Task {
    pub subject: String,
}

impl View for Task {
    type V = Seq<char>;

    open spec fn view(&self) -> Seq<char> {
        self.subject@
    }
}

impl DeepView for Task {
    type V = Seq<char>;

    open spec fn deep_view(&self) -> Seq<char> {
        self.view()
    }
}

/// The model of one category's aggregate in a day.
#[verifier::ext_equal]
pub ghost struct GInfo {
    pub total: int,
    pub tasks: Seq<Seq<char>>,
}

/// The model of a named category group.
#[verifier::ext_equal]
pub ghost struct GGroup {
    pub name: Seq<char>,
    pub info: GInfo,
}

/// The model of one day of the report.
#[verifier::ext_equal]
pub ghost struct GBDay {
    pub date: int,
    pub groups: Seq<GGroup>,
}

/// The model of one month of the report.
#[verifier::ext_equal]
pub ghost struct GMonth {
    pub id: (int, int),
    pub total: int,
    pub days: Seq<GBDay>,
}

/// One category's total time and distinct task subjects within a day.
#[derive(Debug)]
pub struct SubProjectDayInfo {
    pub total_time: u128,
    pub tasks: Vec<Task>,
}

impl View for SubProjectDayInfo {
    type V = GInfo;

    open spec fn view(&self) -> GInfo {
        GInfo { total: self.total_time as int, tasks: self.tasks.deep_view() }
    }
}

/// A named category with its aggregate for one day.
#[derive(Debug)]
pub struct SubProjectDay {
    pub sub_project_name: String,
    pub info: SubProjectDayInfo,
}

impl View for SubProjectDay {
    type V = GGroup;

    open spec fn view(&self) -> GGroup {
        GGroup { name: self.sub_project_name@, info: self.info@ }
    }
}

impl DeepView for SubProjectDay {
    type V = GGroup;

    open spec fn deep_view(&self) -> GGroup {
        self.view()
    }
}

/// One day of the report: its categories, sorted by name.
#[derive(Debug)]
pub struct Day {
    pub date: i64,
    pub sub_projects: Vec<SubProjectDay>,
}

impl View for Day {
    type V = GBDay;

    open spec fn view(&self) -> GBDay {
        GBDay { date: self.date as int, groups: self.sub_projects.deep_view() }
    }
}

impl DeepView for Day {
    type V = GBDay;

    open spec fn deep_view(&self) -> GBDay {
        self.view()
    }
}

/// One month of the report with its total time and days.
#[derive(Debug)]
pub struct Month {
    pub id: MonthId,
    pub total_time: u128,
    pub days: Vec<Day>,
}

impl View for Month {
    type V = GMonth;

    open spec fn view(&self) -> GMonth {
        GMonth {
            id: (self.id.year as int, self.id.month as int),
            total: self.total_time as int,
            days: self.days.deep_view(),
        }
    }
}

impl DeepView for Month {
    type V = GMonth;

    open spec fn deep_view(&self) -> GMonth {
        self.view()
    }
}

/// The whole categorized report.
#[derive(Debug)]
pub struct BinnacleData {
    pub months: Vec<Month>,
}

impl View for BinnacleData {
    type V = Seq<GMonth>;

    open spec fn view(&self) -> Seq<GMonth> {
        self.months.deep_view()
    }
}

/// A day of the report fell outside the calendar's supported range.
#[derive(Debug, Clone, Copy, PartialEq, Eq, Structural)]
pub enum BinnacleError {
    DateOutOfRange,
}

/// The label a session without a category is reported under.
pub open spec fn uncategorized_label() -> Seq<char> {
    "sin categoría"@
}

/// The category name a description is reported under.
pub open spec fn label_of(d: Seq<char>) -> Seq<char> {
    match category_text(d) {
        Some(c) => c,
        None => uncategorized_label(),
    }
}

/// Fold a task into a day's category groups, which stay sorted by name:
/// insert a new category at its place, merge into an existing one, with
/// task subjects deduplicated.
pub open spec fn add_task(groups: Seq<GGroup>, name: Seq<char>, subj: Seq<char>, dur: int) -> Seq<
    GGroup,
>
    decreases groups.len(),
{
    if groups.len() == 0 {
        seq![GGroup { name, info: GInfo { total: dur, tasks: seq![subj] } }]
    } else if lex_lt(name, groups[0].name) {
        seq![GGroup { name, info: GInfo { total: dur, tasks: seq![subj] } }] + groups
    } else if name == groups[0].name {
        seq![
            GGroup {
                name,
                info: GInfo {
                    total: groups[0].info.total + dur,
                    tasks: if groups[0].info.tasks.contains(subj) {
                        groups[0].info.tasks
                    } else {
                        groups[0].info.tasks.push(subj)
                    },
                },
            },
        ] + groups.skip(1)
    } else {
        seq![groups[0]] + add_task(groups.skip(1), name, subj, dur)
    }
}

/// Fold a task into the days of a month: extend the last day while the
/// date matches, open a new day otherwise.
pub open spec fn add_to_days(
    days: Seq<GBDay>,
    date: int,
    name: Seq<char>,
    subj: Seq<char>,
    dur: int,
) -> Seq<GBDay> {
    if days.len() > 0 && days.last().date == date {
        days.update(
            days.len() - 1,
            GBDay { date, groups: add_task(days.last().groups, name, subj, dur) },
        )
    } else {
        days.push(GBDay { date, groups: add_task(Seq::empty(), name, subj, dur) })
    }
}

/// Fold a task into the report: extend the last month while its identity
/// matches, open a new month otherwise.
pub open spec fn add_to_months(
    months: Seq<GMonth>,
    m: (int, int),
    date: int,
    name: Seq<char>,
    subj: Seq<char>,
    dur: int,
) -> Seq<GMonth> {
    if months.len() > 0 && months.last().id == m {
        months.update(
            months.len() - 1,
            GMonth {
                id: m,
                total: months.last().total + dur,
                days: add_to_days(months.last().days, date, name, subj, dur),
            },
        )
    } else {
        months.push(
            GMonth { id: m, total: dur, days: add_to_days(Seq::empty(), date, name, subj, dur) },
        )
    }
}

/// The categorized report of a stream of split sub-sessions: one forward
/// fold; nothing when a day lies outside the calendar range.
pub open spec fn binnacle_model(subs: Seq<GCivil>) -> Option<Seq<GMonth>>
    decreases subs.len(),
{
    if subs.len() == 0 {
        Some(Seq::empty())
    } else {
        match binnacle_model(subs.drop_last()) {
            Some(months) => {
                let s = subs.last();
                let date = day_of(s.start);
                match month_of(date) {
                    Some(m) => Some(
                        add_to_months(
                            months,
                            m,
                            date,
                            label_of(s.description),
                            subject_text(s.description),
                            s.dur(),
                        ),
                    ),
                    None => None,
                }
            },
            None => None,
        }
    }
}

proof fn lemma_model_none_extend(subs: Seq<GCivil>, j: int)
    requires
        0 <= j <= subs.len(),
        binnacle_model(subs.take(j)) is None,
    ensures
        binnacle_model(subs) is None,
    decreases subs.len() - j,
{
    if j == subs.len() {
        assert(subs.take(j) =~= subs);
    } else {
        assert(subs.take(j + 1).drop_last() =~= subs.take(j));
        lemma_model_none_extend(subs, j + 1);
    }
}

/// Every total in the report is at most `b`.
pub open spec fn groups_le(groups: Seq<GGroup>, b: int) -> bool {
    forall|i: int| 0 <= i < groups.len() ==> (#[trigger] groups[i]).info.total <= b
}

pub open spec fn days_le(days: Seq<GBDay>, b: int) -> bool {
    forall|i: int| 0 <= i < days.len() ==> groups_le((#[trigger] days[i]).groups, b)
}

pub open spec fn months_le(months: Seq<GMonth>, b: int) -> bool {
    &&& forall|i: int| 0 <= i < months.len() ==> (#[trigger] months[i]).total <= b
    &&& forall|i: int| 0 <= i < months.len() ==> days_le((#[trigger] months[i]).days, b)
}

/// Whether a vector of tasks holds one with the given subject.
fn contains_task(v: &Vec<Task>, s: &String) -> (b: bool)
    ensures
        b == v.deep_view().contains(s@),
{
    let mut i: usize = 0;
    while i < v.len()
        invariant
            i <= v@.len(),
            forall|j: int| 0 <= j < i ==> v.deep_view()[j] != s@,
        decreases v@.len() - i,
    {
        if s.eq(&v[i].subject) {
            proof {
                assert(v.deep_view()[i as int] == s@);
            }
            return true;
        }
        i = i + 1;
    }
    false
}

proof fn lemma_add_task_at(groups: Seq<GGroup>, name: Seq<char>, subj: Seq<char>, dur: int, i: int)
    requires
        0 <= i <= groups.len(),
        forall|j: int| 0 <= j < i ==> lex_lt((#[trigger] groups[j]).name, name),
        i < groups.len() ==> !lex_lt(groups[i].name, name),
    ensures
        add_task(groups, name, subj, dur) == (if i < groups.len() && groups[i].name == name {
            groups.update(
                i,
                GGroup {
                    name,
                    info: GInfo {
                        total: groups[i].info.total + dur,
                        tasks: if groups[i].info.tasks.contains(subj) {
                            groups[i].info.tasks
                        } else {
                            groups[i].info.tasks.push(subj)
                        },
                    },
                },
            )
        } else {
            groups.insert(i, GGroup { name, info: GInfo { total: dur, tasks: seq![subj] } })
        }),
    decreases groups.len(),
{
    let new = GGroup { name, info: GInfo { total: dur, tasks: seq![subj] } };
    if groups.len() == 0 {
        assert(add_task(groups, name, subj, dur) =~= groups.insert(0, new));
    } else if i == 0 {
        if groups[0].name == name {
            assert(!lex_lt(name, groups[0].name));
            assert(add_task(groups, name, subj, dur) =~= groups.update(
                0,
                GGroup {
                    name,
                    info: GInfo {
                        total: groups[0].info.total + dur,
                        tasks: if groups[0].info.tasks.contains(subj) {
                            groups[0].info.tasks
                        } else {
                            groups[0].info.tasks.push(subj)
                        },
                    },
                },
            ));
        } else {
            assert(lex_lt(name, groups[0].name)) by {
                lemma_lex_total(name, groups[0].name);
            }
            assert(add_task(groups, name, subj, dur) =~= groups.insert(0, new));
        }
    } else {
        assert(lex_lt(groups[0].name, name));
        if lex_le(name, groups[0].name) && name != groups[0].name {
            lemma_lex_antisym(groups[0].name, name);
        }
        assert(!lex_lt(name, groups[0].name));
        assert(name != groups[0].name);
        let rest = groups.skip(1);
        assert(forall|j: int| 0 <= j < i - 1 ==> lex_lt((#[trigger] rest[j]).name, name));
        lemma_add_task_at(rest, name, subj, dur, i - 1);
        if i < groups.len() && groups[i].name == name {
            assert(rest[i - 1] == groups[i]);
            assert(add_task(groups, name, subj, dur) =~= groups.update(
                i,
                GGroup {
                    name,
                    info: GInfo {
                        total: groups[i].info.total + dur,
                        tasks: if groups[i].info.tasks.contains(subj) {
                            groups[i].info.tasks
                        } else {
                            groups[i].info.tasks.push(subj)
                        },
                    },
                },
            )) by {
                assert(seq![groups[0]] + rest.update(
                    i - 1,
                    GGroup {
                        name,
                        info: GInfo {
                            total: rest[i - 1].info.total + dur,
                            tasks: if rest[i - 1].info.tasks.contains(subj) {
                                rest[i - 1].info.tasks
                            } else {
                                rest[i - 1].info.tasks.push(subj)
                            },
                        },
                    },
                ) =~= groups.update(
                    i,
                    GGroup {
                        name,
                        info: GInfo {
                            total: groups[i].info.total + dur,
                            tasks: if groups[i].info.tasks.contains(subj) {
                                groups[i].info.tasks
                            } else {
                                groups[i].info.tasks.push(subj)
                            },
                        },
                    },
                ));
            }
        } else {
            assert(add_task(groups, name, subj, dur) =~= groups.insert(i, new)) by {
                assert(seq![groups[0]] + rest.insert(i - 1, new) =~= groups.insert(i, new));
            }
        }
    }
}

/// Insert one task into a day's sorted category groups.
#[verifier::loop_isolation(false)]
fn upsert_group(groups: &mut Vec<SubProjectDay>, name: &String, subject: &String, dur: u128)
    requires
        forall|i: int|
            0 <= i < old(groups)@.len() ==> (#[trigger] old(groups)@[i]).info.total_time as int
                + dur as int <= u128::MAX as int,
    ensures
        final(groups).deep_view() == add_task(
            old(groups).deep_view(),
            name@,
            subject@,
            dur as int,
        ),
{
    let ghost gg = groups.deep_view();
    let n = groups.len();
    let mut i: usize = 0;
    while i < n && str_le(groups[i].sub_project_name.as_str(), name.as_str()) && !groups[i]
        .sub_project_name.eq(name)
        invariant
            i <= n,
            n == groups@.len(),
            forall|j: int| 0 <= j < i ==> lex_lt((#[trigger] gg[j]).name, name@),
        decreases n - i,
    {
        proof {
            assert(gg[i as int].name == groups@[i as int].sub_project_name@);
        }
        i = i + 1;
    }
    proof {
        if i < n {
            assert(gg[i as int].name == groups@[i as int].sub_project_name@);
            assert(!lex_lt(gg[i as int].name, name@));
        }
        lemma_add_task_at(gg, name@, subject@, dur as int, i as int);
    }
    if i < n && groups[i].sub_project_name.eq(name) {
        let g = &mut groups[i];
        let ghost oldg = *g;
        g.info.total_time = g.info.total_time + dur;
        if !contains_task(&g.info.tasks, subject) {
            g.info.tasks.push(Task { subject: subject.clone() });
            proof {
                assert(g.info.tasks.deep_view() =~= oldg.info.tasks.deep_view().push(subject@));
            }
        }
        proof {
            assert(g@ =~~= GGroup {
                name: name@,
                info: GInfo {
                    total: oldg@.info.total + dur as int,
                    tasks: if oldg@.info.tasks.contains(subject@) {
                        oldg@.info.tasks
                    } else {
                        oldg@.info.tasks.push(subject@)
                    },
                },
            });
        }
        proof {
            assert(groups.deep_view() =~~= add_task(gg, name@, subject@, dur as int));
        }
    } else {
        let mut tasks: Vec<Task> = Vec::new();
        tasks.push(Task { subject: subject.clone() });
        let g = SubProjectDay {
            sub_project_name: name.clone(),
            info: SubProjectDayInfo { total_time: dur, tasks },
        };
        proof {
            assert(g@.info.tasks =~= seq![subject@]);
        }
        groups.insert(i, g);
        proof {
            assert(groups.deep_view() =~~= add_task(gg, name@, subject@, dur as int));
        }
    }
}

proof fn lemma_add_task_le(groups: Seq<GGroup>, name: Seq<char>, subj: Seq<char>, dur: int, b: int)
    requires
        groups_le(groups, b),
        0 <= dur,
        0 <= b,
    ensures
        groups_le(add_task(groups, name, subj, dur), b + dur),
    decreases groups.len(),
{
    let nb = add_task(groups, name, subj, dur);
    if groups.len() == 0 {
    } else if lex_lt(name, groups[0].name) {
        assert forall|i: int| 0 <= i < nb.len() implies (#[trigger] nb[i]).info.total <= b
            + dur by {
            if i > 0 {
                assert(nb[i] == groups[i - 1]);
            }
        }
    } else if name == groups[0].name {
        assert forall|i: int| 0 <= i < nb.len() implies (#[trigger] nb[i]).info.total <= b
            + dur by {
            if i > 0 {
                assert(nb[i] == groups[i]);
            }
        }
    } else {
        assert(groups_le(groups.skip(1), b)) by {
            assert(forall|i: int|
                0 <= i < groups.skip(1).len() ==> groups.skip(1)[i] == #[trigger] groups[i + 1]);
        }
        lemma_add_task_le(groups.skip(1), name, subj, dur, b);
        assert forall|i: int| 0 <= i < nb.len() implies (#[trigger] nb[i]).info.total <= b
            + dur by {
            if i > 0 {
                assert(nb[i] == add_task(groups.skip(1), name, subj, dur)[i - 1]);
            }
        }
    }
}

proof fn lemma_add_days_le(
    days: Seq<GBDay>,
    date: int,
    name: Seq<char>,
    subj: Seq<char>,
    dur: int,
    b: int,
)
    requires
        days_le(days, b),
        0 <= dur,
        0 <= b,
    ensures
        days_le(add_to_days(days, date, name, subj, dur), b + dur),
{
    let nd = add_to_days(days, date, name, subj, dur);
    if days.len() > 0 && days.last().date == date {
        lemma_add_task_le(days.last().groups, name, subj, dur, b);
        assert forall|i: int| 0 <= i < nd.len() implies groups_le(
            (#[trigger] nd[i]).groups,
            b + dur,
        ) by {
            if i < days.len() - 1 {
                assert(nd[i] == days[i]);
            }
        }
    } else {
        lemma_add_task_le(Seq::empty(), name, subj, dur, b);
        assert forall|i: int| 0 <= i < nd.len() implies groups_le(
            (#[trigger] nd[i]).groups,
            b + dur,
        ) by {
            if i < days.len() {
                assert(nd[i] == days[i]);
            }
        }
    }
}

proof fn lemma_add_months_le(
    months: Seq<GMonth>,
    m: (int, int),
    date: int,
    name: Seq<char>,
    subj: Seq<char>,
    dur: int,
    b: int,
)
    requires
        months_le(months, b),
        0 <= dur,
        0 <= b,
    ensures
        months_le(add_to_months(months, m, date, name, subj, dur), b + dur),
{
    let nm = add_to_months(months, m, date, name, subj, dur);
    if months.len() > 0 && months.last().id == m {
        lemma_add_days_le(months.last().days, date, name, subj, dur, b);
        assert forall|i: int| 0 <= i < nm.len() implies (#[trigger] nm[i]).total <= b + dur
            && days_le(nm[i].days, b + dur) by {
            if i < months.len() - 1 {
                assert(nm[i] == months[i]);
            }
        }
    } else {
        lemma_add_days_le(Seq::empty(), date, name, subj, dur, b);
        assert forall|i: int| 0 <= i < nm.len() implies (#[trigger] nm[i]).total <= b + dur
            && days_le(nm[i].days, b + dur) by {
            if i < months.len() {
                assert(nm[i] == months[i]);
            }
        }
    }
}

/// Fold one task into a month's days.
#[verifier::loop_isolation(false)]
fn add_day_task(days: &mut Vec<Day>, date: i64, name: &String, subject: &String, dur: u128)
    requires
        days_le(old(days).deep_view(), u128::MAX as int - dur as int),
    ensures
        final(days).deep_view() == add_to_days(
            old(days).deep_view(),
            date as int,
            name@,
            subject@,
            dur as int,
        ),
{
    let n = days.len();
    if n > 0 && days[n - 1].date == date {
        proof {
            assert(days_le(days.deep_view(), u128::MAX as int - dur as int));
            assert(groups_le(days.deep_view()[n - 1].groups, u128::MAX as int - dur as int));
            assert forall|q: int|
                0 <= q < days@[n - 1].sub_projects@.len() implies (#[trigger] days@[n
                - 1].sub_projects@[q]).info.total_time as int + dur as int
                <= u128::MAX as int by {
                assert(days.deep_view()[n - 1].groups[q] == days@[n - 1].sub_projects@[q]@);
            }
        }
        let d = &mut days[n - 1];
        upsert_group(&mut d.sub_projects, name, subject, dur);
        proof {
            assert(days.deep_view() =~~= add_to_days(
                old(days).deep_view(),
                date as int,
                name@,
                subject@,
                dur as int,
            ));
        }
    } else {
        let mut groups: Vec<SubProjectDay> = Vec::new();
        proof {
            assert(groups.deep_view() =~= Seq::<GGroup>::empty());
        }
        upsert_group(&mut groups, name, subject, dur);
        days.push(Day { date, sub_projects: groups });
        proof {
            assert(days.deep_view() =~~= add_to_days(
                old(days).deep_view(),
                date as int,
                name@,
                subject@,
                dur as int,
            ));
        }
    }
}

/// Fold one task into the report's months.
#[verifier::loop_isolation(false)]
fn add_month_task(
    months: &mut Vec<Month>,
    m: MonthId,
    date: i64,
    name: &String,
    subject: &String,
    dur: u128,
)
    requires
        months_le(old(months).deep_view(), u128::MAX as int - dur as int),
    ensures
        final(months).deep_view() == add_to_months(
            old(months).deep_view(),
            (m.spec_year() as int, m.spec_month() as int),
            date as int,
            name@,
            subject@,
            dur as int,
        ),
{
    let n = months.len();
    if n > 0 && months[n - 1].id == m {
        proof {
            assert(months.deep_view()[n - 1].id == (m.spec_year() as int, m.spec_month() as int));
            assert(months.deep_view()[n - 1].total <= u128::MAX as int - dur as int);
            assert(days_le(months.deep_view()[n - 1].days, u128::MAX as int - dur as int));
        }
        let mo = &mut months[n - 1];
        mo.total_time = mo.total_time + dur;
        add_day_task(&mut mo.days, date, name, subject, dur);
        proof {
            assert(months.deep_view() =~~= add_to_months(
                old(months).deep_view(),
                (m.spec_year() as int, m.spec_month() as int),
                date as int,
                name@,
                subject@,
                dur as int,
            ));
        }
    } else {
        let mut days: Vec<Day> = Vec::new();
        proof {
            assert(days.deep_view() =~= Seq::<GBDay>::empty());
            assert(days_le(days.deep_view(), u128::MAX as int - dur as int));
        }
        add_day_task(&mut days, date, name, subject, dur);
        months.push(Month { id: m, total_time: dur, days });
        proof {
            if n > 0 {
                assert(months.deep_view()[n - 1].id != (
                    m.spec_year() as int,
                    m.spec_month() as int,
                )) by {
                    assert(old(months)@[n - 1].id.year != m.year || old(months)@[n - 1].id.month
                        != m.month);
                }
            }
            assert(months.deep_view() =~~= add_to_months(
                old(months).deep_view(),
                (m.spec_year() as int, m.spec_month() as int),
                date as int,
                name@,
                subject@,
                dur as int,
            ));
        }
    }
}

proof fn lemma_split_stream_split(sessions: Seq<GSession>, offsets: Seq<int>, i: int)
    requires
        sessions.len() == offsets.len(),
        0 <= i <= sessions.len(),
    ensures
        split_stream(sessions, offsets) == split_stream(sessions.take(i), offsets.take(i))
            + split_stream(sessions.skip(i), offsets.skip(i)),
    decreases sessions.len(),
{
    if i == sessions.len() {
        assert(sessions.take(i) =~= sessions);
        assert(offsets.take(i) =~= offsets);
        assert(split_stream(sessions.skip(i), offsets.skip(i)) =~= Seq::<GCivil>::empty());
        assert(split_stream(sessions, offsets) + Seq::<GCivil>::empty() =~= split_stream(
            sessions,
            offsets,
        ));
    } else {
        let pre = sessions.drop_last();
        let poff = offsets.drop_last();
        lemma_split_stream_split(pre, poff, i);
        assert(pre.take(i) =~= sessions.take(i));
        assert(poff.take(i) =~= offsets.take(i));
        assert(sessions.skip(i).drop_last() =~= pre.skip(i));
        assert(offsets.skip(i).drop_last() =~= poff.skip(i));
        assert(sessions.skip(i).last() == sessions.last());
        assert(offsets.skip(i).last() == offsets.last());
        let c = crate::summary::civil_of(sessions.last(), offsets.last());
        assert(split_stream(sessions.skip(i), offsets.skip(i)) == split_stream(
            pre.skip(i),
            poff.skip(i),
        ) + crate::parser::split_model(c));
        assert(split_stream(sessions.take(i), offsets.take(i)) + (split_stream(
            pre.skip(i),
            poff.skip(i),
        ) + crate::parser::split_model(c)) =~= (split_stream(sessions.take(i), offsets.take(i))
            + split_stream(pre.skip(i), poff.skip(i))) + crate::parser::split_model(c));
    }
}

proof fn lemma_step_budget(gsessions: Seq<GSession>, goffs: Seq<int>, i: int, j: int)
    requires
        summarize_pre(gsessions, goffs),
        gsessions.len() <= usize::MAX as int,
        0 <= i < gsessions.len(),
        0 <= j < crate::parser::split_model(
            crate::summary::civil_of(gsessions[i], goffs[i]),
        ).len(),
    ensures
        ({
            let done = split_stream(gsessions.take(i), goffs.take(i));
            let sm = crate::parser::split_model(crate::summary::civil_of(gsessions[i], goffs[i]));
            let partial = done + sm.take(j);
            let gsub = sm[j];
            &&& gsub.wf()
            &&& gsub.start < gsub.end
            &&& -MAX_DAY <= day_of(gsub.start) <= MAX_DAY
            &&& 0 <= civil_dur_sum(partial)
            &&& civil_dur_sum(partial) + gsub.dur() <= u128::MAX as int
            &&& civil_dur_sum(partial.push(gsub)) == civil_dur_sum(partial) + gsub.dur()
            &&& partial.push(gsub) == done + sm.take(j + 1)
        }),
{
    let done = split_stream(gsessions.take(i), goffs.take(i));
    let c = crate::summary::civil_of(gsessions[i], goffs[i]);
    let sm = crate::parser::split_model(c);
    let partial = done + sm.take(j);
    let gsub = sm[j];
    assert(summarize_pre(gsessions.take(i + 1), goffs.take(i + 1)));
    lemma_stream_props(gsessions.take(i + 1), goffs.take(i + 1));
    assert(gsessions.take(i + 1).drop_last() =~= gsessions.take(i));
    assert(goffs.take(i + 1).drop_last() =~= goffs.take(i));
    lemma_stream_total(gsessions.take(i + 1), goffs.take(i + 1));
    lemma_sessions_sum_bound(gsessions.take(i + 1));
    let whole = split_stream(gsessions.take(i + 1), goffs.take(i + 1));
    assert(whole == done + sm);
    assert(subs_ok(whole));
    assert(gsub == whole[done.len() + j]);
    assert(gsub.wf() && gsub.start < gsub.end);
    lemma_day_bounds(gsub.start);
    assert(partial =~= whole.take(partial.len() as int));
    assert(partial.push(gsub) =~= whole.take(partial.len() as int + 1));
    assert forall|k: int| 0 <= k < partial.len() implies (#[trigger] partial[k]).start
        <= partial[k].end by {
        assert(partial[k] == whole[k]);
    }
    lemma_dur_nonneg_local(partial);
    lemma_dur_sum_concat(partial, seq![gsub]);
    assert(partial + seq![gsub] =~= partial.push(gsub));
    assert(civil_dur_sum(seq![gsub]) == gsub.dur()) by {
        assert(seq![gsub].drop_last() =~= Seq::<GCivil>::empty());
        assert(civil_dur_sum(Seq::<GCivil>::empty()) == 0);
    }
    assert forall|k: int| 0 <= k < whole.len() implies (#[trigger] whole[k]).start
        <= whole[k].end by {
        assert(subs_ok(whole));
    }
    lemma_sum_take_le(whole, partial.len() as int + 1);
    assert(civil_dur_sum(whole) == sessions_dur_sum(gsessions.take(i + 1)));
    assert(sessions_dur_sum(gsessions.take(i + 1)) <= gsessions.take(i + 1).len() * (2
        * MAX_ABS_TIMESTAMP as int));
    assert(gsessions.take(i + 1).len() * (2 * MAX_ABS_TIMESTAMP as int) <= u128::MAX as int)
        by (nonlinear_arith)
        requires
            gsessions.take(i + 1).len() <= usize::MAX as int,
    ;
    assert(sm.take(j + 1).drop_last() =~= sm.take(j));
    assert(done + sm.take(j + 1) =~= partial.push(gsub));
}

proof fn lemma_step_err(gsessions: Seq<GSession>, goffs: Seq<int>, i: int, j: int)
    requires
        summarize_pre(gsessions, goffs),
        0 <= i < gsessions.len(),
        0 <= j < crate::parser::split_model(
            crate::summary::civil_of(gsessions[i], goffs[i]),
        ).len(),
        month_of(
            day_of(
                crate::parser::split_model(
                    crate::summary::civil_of(gsessions[i], goffs[i]),
                )[j].start,
            ),
        ) is None,
    ensures
        binnacle_model(split_stream(gsessions, goffs)) is None,
{
    let done = split_stream(gsessions.take(i), goffs.take(i));
    let c = crate::summary::civil_of(gsessions[i], goffs[i]);
    let sm = crate::parser::split_model(c);
    let partial = done + sm.take(j);
    let gsub = sm[j];
    let full = split_stream(gsessions, goffs);
    lemma_split_stream_split(gsessions, goffs, i + 1);
    let whole = split_stream(gsessions.take(i + 1), goffs.take(i + 1));
    assert(gsessions.take(i + 1).drop_last() =~= gsessions.take(i));
    assert(goffs.take(i + 1).drop_last() =~= goffs.take(i));
    assert(whole == done + sm);
    let p = partial.len() as int;
    assert(partial =~= whole.take(p));
    assert(binnacle_model(whole.take(p + 1)) is None) by {
        assert(whole.take(p + 1).drop_last() =~= partial);
        assert(whole.take(p + 1).last() == gsub);
    }
    assert(whole =~= full.take(whole.len() as int)) by {
        assert(full =~= whole + split_stream(gsessions.skip(i + 1), goffs.skip(i + 1)));
    }
    assert(whole.take(p + 1) =~= full.take(p + 1));
    lemma_model_none_extend(full, p + 1);
}

proof fn lemma_step_model(
    gsessions: Seq<GSession>,
    goffs: Seq<int>,
    i: int,
    j: int,
    months: Seq<GMonth>,
    m: (int, int),
)
    requires
        summarize_pre(gsessions, goffs),
        0 <= i < gsessions.len(),
        0 <= j < crate::parser::split_model(
            crate::summary::civil_of(gsessions[i], goffs[i]),
        ).len(),
        binnacle_model(
            split_stream(gsessions.take(i), goffs.take(i)) + crate::parser::split_model(
                crate::summary::civil_of(gsessions[i], goffs[i]),
            ).take(j),
        ) == Some(months),
        month_of(
            day_of(
                crate::parser::split_model(
                    crate::summary::civil_of(gsessions[i], goffs[i]),
                )[j].start,
            ),
        ) == Some(m),
    ensures
        ({
            let done = split_stream(gsessions.take(i), goffs.take(i));
            let sm = crate::parser::split_model(crate::summary::civil_of(gsessions[i], goffs[i]));
            let gsub = sm[j];
            binnacle_model(done + sm.take(j + 1)) == Some(
                add_to_months(
                    months,
                    m,
                    day_of(gsub.start),
                    label_of(gsub.description),
                    subject_text(gsub.description),
                    gsub.dur(),
                ),
            )
        }),
{
    let done = split_stream(gsessions.take(i), goffs.take(i));
    let sm = crate::parser::split_model(crate::summary::civil_of(gsessions[i], goffs[i]));
    let partial = done + sm.take(j);
    let gsub = sm[j];
    assert(sm.take(j + 1).drop_last() =~= sm.take(j));
    assert(done + sm.take(j + 1) =~= partial.push(gsub));
    assert(partial.push(gsub).drop_last() =~= partial);
    assert(partial.push(gsub).last() == gsub);
}

/// Build the categorized report from raw sessions: each is read in the
/// timezone of its offset, cut at midnights, its description split into
/// category and subject, and folded by month, day and category.  A day
/// outside the calendar range is an error, with no partial result.
#[verifier::loop_isolation(false)]
#[verifier::rlimit(100)]
pub fn process(sessions: &Vec<SessionTZ>, offsets: &Vec<i32>) -> (r: Result<
    BinnacleData,
    BinnacleError,
>)
    requires
        summarize_pre(sessions.deep_view(), offs_int(offsets@)),
    ensures
        r matches Ok(b) ==> binnacle_model(
            split_stream(sessions.deep_view(), offs_int(offsets@)),
        ) == Some(b@),
        r is Err ==> binnacle_model(
            split_stream(sessions.deep_view(), offs_int(offsets@)),
        ) is None,
{
    let ghost gsessions = sessions.deep_view();
    let ghost goffs = offs_int(offsets@);
    let n = sessions.len();
    let mut months: Vec<Month> = Vec::new();
    proof {
        assert(gsessions.take(0) =~= Seq::<GSession>::empty());
        assert(goffs.take(0) =~= Seq::<int>::empty());
        assert(months.deep_view() =~= Seq::<GMonth>::empty());
        lemma_stream_props(gsessions, goffs);
    }
    let mut i: usize = 0;
    while i < n
        invariant
            i <= n,
            n == gsessions.len(),
            binnacle_model(split_stream(gsessions.take(i as int), goffs.take(i as int))) == Some(
                months.deep_view(),
            ),
            months_le(
                months.deep_view(),
                civil_dur_sum(split_stream(gsessions.take(i as int), goffs.take(i as int))),
            ),
        decreases n - i,
    {
        let ghost done = split_stream(gsessions.take(i as int), goffs.take(i as int));
        let ghost gs = gsessions[i as int];
        let ghost goff = goffs[i as int];
        let ghost c = crate::summary::civil_of(gs, goff);
        proof {
            assert(c.wf());
            assert(c.start <= c.end);
            assert(gsessions.take(i + 1).drop_last() =~= gsessions.take(i as int));
            assert(goffs.take(i + 1).drop_last() =~= goffs.take(i as int));
            assert(gsessions.take(i + 1).last() == gs);
            assert(goffs.take(i + 1).last() == goff);
        }
        let s = &sessions[i];
        let off = offsets[i] as i64;
        let civ = NaiveSession {
            start: s.start.epoch + off,
            end: s.end.epoch + off,
            description: s.description.clone(),
        };
        proof {
            assert(civ@ =~~= c);
        }
        let subs = civ.split_at_days();
        let m_count = subs.len();
        let mut j: usize = 0;
        while j < m_count
            invariant
                j <= m_count,
                m_count == crate::parser::split_model(c).len(),
                subs.deep_view() == crate::parser::split_model(c),
                binnacle_model(done + crate::parser::split_model(c).take(j as int)) == Some(
                    months.deep_view(),
                ),
                months_le(
                    months.deep_view(),
                    civil_dur_sum(done + crate::parser::split_model(c).take(j as int)),
                ),
            decreases m_count - j,
        {
            let ghost partial = done + crate::parser::split_model(c).take(j as int);
            let ghost gsub = crate::parser::split_model(c)[j as int];
            proof {
                assert(subs[j as int]@ == gsub);
                lemma_step_budget(gsessions, goffs, i as int, j as int);
            }
            let sub = &subs[j];
            let date = civil_day(sub.start);
            let dur = (sub.end - sub.start) as u128;
            let m_opt = month_id(date);
            match m_opt {
                None => {
                    proof {
                        lemma_step_err(gsessions, goffs, i as int, j as int);
                    }
                    return Err(BinnacleError::DateOutOfRange);
                },
                Some(m) => {
                    let body = match parse(sub.description.as_str()) {
                        Ok(b) => b,
                        Err(_) => {
                            proof {
                                assert(false);
                            }
                            return Err(BinnacleError::DateOutOfRange);
                        },
                    };
                    let name: String = match body.sub_project {
                        Some(cat) => cat.to_owned(),
                        None => String::from_str("sin categoría"),
                    };
                    let subject: String = body.subject.to_owned();
                    let ghost old_months = months.deep_view();
                    proof {
                        assert(name@ == label_of(gsub.description));
                        assert(subject@ == subject_text(gsub.description));
                        lemma_months_le_mono(
                            old_months,
                            civil_dur_sum(partial),
                            u128::MAX as int - dur as int,
                        );
                    }
                    add_month_task(&mut months, m, date, &name, &subject, dur);
                    proof {
                        lemma_step_model(
                            gsessions,
                            goffs,
                            i as int,
                            j as int,
                            old_months,
                            (m.spec_year() as int, m.spec_month() as int),
                        );
                        lemma_add_months_le(
                            old_months,
                            (m.spec_year() as int, m.spec_month() as int),
                            date as int,
                            name@,
                            subject@,
                            dur as int,
                            civil_dur_sum(partial),
                        );
                    }
                },
            }
            j = j + 1;
        }
        proof {
            assert(crate::parser::split_model(c).take(m_count as int) =~= crate::parser::split_model(
                c,
            ));
            assert(split_stream(gsessions.take(i + 1), goffs.take(i + 1)) =~= done
                + crate::parser::split_model(c));
        }
        i = i + 1;
    }
    proof {
        assert(gsessions.take(n as int) =~= gsessions);
        assert(goffs.take(n as int) =~= goffs);
    }
    Ok(BinnacleData { months })
}

/// A day's category groups are strictly sorted by name.
pub open spec fn groups_sorted(groups: Seq<GGroup>) -> bool {
    forall|i: int, j: int|
        0 <= i < j < groups.len() ==> lex_lt(
            (#[trigger] groups[i]).name,
            (#[trigger] groups[j]).name,
        )
}

proof fn lemma_add_task_sorted(groups: Seq<GGroup>, name: Seq<char>, subj: Seq<char>, dur: int)
    requires
        groups_sorted(groups),
    ensures
        groups_sorted(add_task(groups, name, subj, dur)),
        forall|k: int|
            0 <= k < add_task(groups, name, subj, dur).len() ==> ((#[trigger] add_task(
                groups,
                name,
                subj,
                dur,
            )[k]).name == name || exists|q: int|
                0 <= q < groups.len() && (#[trigger] groups[q]).name == add_task(
                    groups,
                    name,
                    subj,
                    dur,
                )[k].name),
    decreases groups.len(),
{
    let nb = add_task(groups, name, subj, dur);
    if groups.len() == 0 {
    } else if lex_lt(name, groups[0].name) {
        assert forall|i: int, j: int| 0 <= i < j < nb.len() implies lex_lt(
            (#[trigger] nb[i]).name,
            (#[trigger] nb[j]).name,
        ) by {
            if i == 0 {
                assert(nb[j] == groups[j - 1]);
                if j > 1 {
                    crate::text::lemma_lex_lt_trans(name, groups[0].name, groups[j - 1].name);
                }
            } else {
                assert(nb[i] == groups[i - 1] && nb[j] == groups[j - 1]);
            }
        }
        assert forall|k: int| 0 <= k < nb.len() implies ((#[trigger] nb[k]).name == name
            || exists|q: int| 0 <= q < groups.len() && (#[trigger] groups[q]).name
            == nb[k].name) by {
            if k > 0 {
                assert(groups[k - 1].name == nb[k].name);
            }
        }
    } else if name == groups[0].name {
        assert forall|i: int, j: int| 0 <= i < j < nb.len() implies lex_lt(
            (#[trigger] nb[i]).name,
            (#[trigger] nb[j]).name,
        ) by {
            assert(nb[i].name == groups[i].name);
            assert(nb[j].name == groups[j].name);
        }
        assert forall|k: int| 0 <= k < nb.len() implies ((#[trigger] nb[k]).name == name
            || exists|q: int| 0 <= q < groups.len() && (#[trigger] groups[q]).name
            == nb[k].name) by {
            assert(groups[k].name == nb[k].name);
        }
    } else {
        assert(lex_lt(groups[0].name, name)) by {
            lemma_lex_total(name, groups[0].name);
        }
        let rest = groups.skip(1);
        assert(groups_sorted(rest)) by {
            assert(forall|i: int| 0 <= i < rest.len() ==> rest[i] == #[trigger] groups[i + 1]);
        }
        lemma_add_task_sorted(rest, name, subj, dur);
        let nbr = add_task(rest, name, subj, dur);
        assert(nb =~= seq![groups[0]] + nbr);
        assert forall|i: int, j: int| 0 <= i < j < nb.len() implies lex_lt(
            (#[trigger] nb[i]).name,
            (#[trigger] nb[j]).name,
        ) by {
            if i == 0 {
                assert(nb[j] == nbr[j - 1]);
                if nbr[j - 1].name == name {
                    assert(lex_lt(groups[0].name, name));
                } else {
                    let q = choose|q: int|
                        0 <= q < rest.len() && (#[trigger] rest[q]).name == nbr[j - 1].name;
                    assert(rest[q] == groups[q + 1]);
                    assert(lex_lt(groups[0].name, groups[q + 1].name));
                }
            } else {
                assert(nb[i] == nbr[i - 1] && nb[j] == nbr[j - 1]);
            }
        }
        assert forall|k: int| 0 <= k < nb.len() implies ((#[trigger] nb[k]).name == name
            || exists|q: int| 0 <= q < groups.len() && (#[trigger] groups[q]).name
            == nb[k].name) by {
            if k == 0 {
                assert(groups[0].name == nb[0].name);
            } else {
                assert(nb[k] == nbr[k - 1]);
                if nbr[k - 1].name != name {
                    let q = choose|q: int|
                        0 <= q < rest.len() && (#[trigger] rest[q]).name == nbr[k - 1].name;
                    assert(groups[q + 1].name == nb[k].name);
                }
            }
        }
    }
}

/// In the categorized report, every day's categories are strictly sorted
/// by name: the report order is deterministic.
pub proof fn lemma_binnacle_sorted(subs: Seq<GCivil>)
    requires
        binnacle_model(subs) is Some,
    ensures
        forall|mi: int, di: int|
            0 <= mi < binnacle_model(subs)->Some_0.len() && 0 <= di < (#[trigger] binnacle_model(
                subs,
            )->Some_0[mi]).days.len() ==> groups_sorted(
                (#[trigger] binnacle_model(subs)->Some_0[mi].days[di]).groups,
            ),
    decreases subs.len(),
{
    if subs.len() == 0 {
    } else {
        let pre = subs.drop_last();
        lemma_binnacle_sorted(pre);
        let months = binnacle_model(pre)->Some_0;
        let s = subs.last();
        let date = day_of(s.start);
        let name = label_of(s.description);
        let subj = subject_text(s.description);
        let nm = binnacle_model(subs)->Some_0;
        assert forall|mi: int, di: int|
            0 <= mi < nm.len() && 0 <= di < (#[trigger] nm[mi]).days.len() implies groups_sorted(
            (#[trigger] nm[mi].days[di]).groups,
        ) by {
            let m = month_of(date)->Some_0;
            assert(nm == add_to_months(months, m, date, name, subj, s.dur()));
            let fresh_days = add_to_days(Seq::empty(), date, name, subj, s.dur());
            assert(groups_sorted(add_task(Seq::empty(), name, subj, s.dur()))) by {
                lemma_add_task_sorted(Seq::empty(), name, subj, s.dur());
            }
            if months.len() > 0 && months.last().id == m {
                if mi < months.len() - 1 {
                    assert(nm[mi] == months[mi]);
                } else {
                    let od = months.last().days;
                    let nd = add_to_days(od, date, name, subj, s.dur());
                    assert(nm[mi].days == nd);
                    if od.len() > 0 && od.last().date == date {
                        if di < od.len() - 1 {
                            assert(nd[di] == od[di]);
                        } else {
                            lemma_add_task_sorted(od.last().groups, name, subj, s.dur());
                        }
                    } else {
                        if di < od.len() {
                            assert(nd[di] == od[di]);
                        }
                    }
                }
            } else {
                if mi < months.len() {
                    assert(nm[mi] == months[mi]);
                }
            }
        }
    }
}

proof fn lemma_months_le_mono(months: Seq<GMonth>, b1: int, b2: int)
    requires
        months_le(months, b1),
        b1 <= b2,
    ensures
        months_le(months, b2),
{
    assert forall|i: int| 0 <= i < months.len() implies (#[trigger] months[i]).total <= b2
        && days_le(months[i].days, b2) by {
        assert(months[i].total <= b1);
        assert(days_le(months[i].days, b1));
        assert forall|k: int| 0 <= k < months[i].days.len() implies groups_le(
            (#[trigger] months[i].days[k]).groups,
            b2,
        ) by {
            assert(groups_le(months[i].days[k].groups, b1));
            assert forall|g: int|
                0 <= g < months[i].days[k].groups.len() implies (#[trigger] months[i].days[k].groups[g]).info.total
                <= b2 by {
                assert(months[i].days[k].groups[g].info.total <= b1);
            }
        }
    }
}

proof fn lemma_dur_nonneg_local(subs: Seq<GCivil>)
    requires
        forall|k: int| 0 <= k < subs.len() ==> (#[trigger] subs[k]).start <= subs[k].end,
    ensures
        0 <= civil_dur_sum(subs),
    decreases subs.len(),
{
    if subs.len() > 0 {
        lemma_dur_nonneg_local(subs.drop_last());
    }
}

} // verus!
