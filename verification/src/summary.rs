//! The three read-side queries over the log: totals per activity for one
//! day, per weekday and activity over the whole history, and per activity for
//! one calendar month. Every query scans the log text line by line, skipping
//! lines that do not have exactly three comma-separated fields and reading an
//! unparsable duration as zero. The weekday and month queries reject the whole
//! log when any well-formed line carries a date that is not a real
//! `YYYY-MM-DD` calendar day; the daily query never does, since it compares
//! the date field as plain text.

use vstd::prelude::*;
use vstd::string::StrSliceExecFns;
use vstd::string::StringExecFns;

use crate::date::Date;
use crate::date::date_chars;
use crate::date::day_of_chars;
use crate::date::is_date_chars;
use crate::date::format_date;
use crate::date::month_of_chars;
use crate::date::parse_date;
use crate::date::weekday_number;
use crate::date::weekday_of;
use crate::date::year_of_chars;
use crate::numbers::parse_duration;
use crate::numbers::parsed_duration;
use crate::text::split_chars;
use crate::text::split_str;
use crate::text::str_eq;
use crate::text::strip_cr;
use crate::text::strip_cr_str;
use crate::text::trim_chars;
use crate::text::trim_str;

verus! {

/// The lines of the log text as a buffered reader yields them: the pieces
/// between newline characters, each piece that a newline ended stripped of
/// one trailing carriage return. The final piece was not ended by a newline,
/// so a carriage return there stays.
pub open spec fn lines_of(content: Seq<char>) -> Seq<Seq<char>> {
    let raw = split_chars(content, '\n');
    Seq::new(raw.len(), |i: int| if i < raw.len() - 1 {
        strip_cr(raw[i])
    } else {
        raw[i]
    })
}

/// The fields the daily query sees: the line split at commas, untrimmed.
pub open spec fn daily_fields(line: Seq<char>) -> Seq<Seq<char>> {
    split_chars(line, ',')
}

/// The fields the weekday and month queries see: the trimmed line, split at
/// commas.
pub open spec fn scan_fields(line: Seq<char>) -> Seq<Seq<char>> {
    split_chars(trim_chars(line), ',')
}

/// What one line contributes to the daily total of activity `a` on the day
/// whose formatted date is `today`.
pub open spec fn daily_line_total(line: Seq<char>, today: Seq<char>, a: Seq<char>) -> nat {
    let f = daily_fields(line);
    if f.len() == 3 && f[0] == today && f[1] == a {
        parsed_duration(f[2])
    } else {
        0
    }
}

/// Whether one line makes activity `a` appear in the daily summary for
/// `today`, even with duration zero.
pub open spec fn daily_line_mentions(line: Seq<char>, today: Seq<char>, a: Seq<char>) -> bool {
    let f = daily_fields(line);
    f.len() == 3 && f[0] == today && f[1] == a
}

/// The daily total of activity `a` over the given lines.
pub open spec fn daily_total(lines: Seq<Seq<char>>, today: Seq<char>, a: Seq<char>) -> nat
    decreases lines.len(),
{
    if lines.len() == 0 {
        0
    } else {
        daily_total(lines.drop_last(), today, a) + daily_line_total(lines.last(), today, a)
    }
}

pub open spec fn daily_mentions(lines: Seq<Seq<char>>, today: Seq<char>, a: Seq<char>) -> bool {
    exists|i: int| 0 <= i < lines.len() && daily_line_mentions(lines[i], today, a)
}

/// Whether a line aborts the strict queries: three fields, but a date field
/// that is not a real `YYYY-MM-DD` day.
pub open spec fn line_has_bad_date(line: Seq<char>) -> bool {
    let f = scan_fields(line);
    f.len() == 3 && !is_date_chars(f[0])
}

pub open spec fn has_bad_date(lines: Seq<Seq<char>>) -> bool {
    exists|i: int| 0 <= i < lines.len() && line_has_bad_date(lines[i])
}

/// What one line contributes to weekday `wd` (1 is Monday, 7 is Sunday) for
/// activity `a`.
pub open spec fn weekly_line_total(line: Seq<char>, wd: int, a: Seq<char>) -> nat {
    let f = scan_fields(line);
    if f.len() == 3 && is_date_chars(f[0]) && weekday_of(
        year_of_chars(f[0]),
        month_of_chars(f[0]),
        day_of_chars(f[0]),
    ) == wd && f[1] == a {
        parsed_duration(f[2])
    } else {
        0
    }
}

pub open spec fn weekly_line_mentions(line: Seq<char>, wd: int, a: Seq<char>) -> bool {
    let f = scan_fields(line);
    f.len() == 3 && is_date_chars(f[0]) && weekday_of(
        year_of_chars(f[0]),
        month_of_chars(f[0]),
        day_of_chars(f[0]),
    ) == wd && f[1] == a
}

/// The cumulative total for weekday `wd` and activity `a` over the whole
/// history: every date ever logged counts, not only the current week.
pub open spec fn weekly_total(lines: Seq<Seq<char>>, wd: int, a: Seq<char>) -> nat
    decreases lines.len(),
{
    if lines.len() == 0 {
        0
    } else {
        weekly_total(lines.drop_last(), wd, a) + weekly_line_total(lines.last(), wd, a)
    }
}

pub open spec fn weekly_mentions(lines: Seq<Seq<char>>, wd: int, a: Seq<char>) -> bool {
    exists|i: int| 0 <= i < lines.len() && weekly_line_mentions(lines[i], wd, a)
}

/// What one line contributes to the month `(y, m)` for activity `a`: its
/// duration when both the year and the month of its date match.
pub open spec fn monthly_line_total(line: Seq<char>, y: int, m: int, a: Seq<char>) -> nat {
    let f = scan_fields(line);
    if f.len() == 3 && is_date_chars(f[0]) && year_of_chars(f[0]) == y && month_of_chars(f[0])
        == m && f[1] == a {
        parsed_duration(f[2])
    } else {
        0
    }
}

pub open spec fn monthly_line_mentions(line: Seq<char>, y: int, m: int, a: Seq<char>) -> bool {
    let f = scan_fields(line);
    f.len() == 3 && is_date_chars(f[0]) && year_of_chars(f[0]) == y && month_of_chars(f[0]) == m
        && f[1] == a
}

pub open spec fn monthly_total(lines: Seq<Seq<char>>, y: int, m: int, a: Seq<char>) -> nat
    decreases lines.len(),
{
    if lines.len() == 0 {
        0
    } else {
        monthly_total(lines.drop_last(), y, m, a) + monthly_line_total(lines.last(), y, m, a)
    }
}

pub open spec fn monthly_mentions(lines: Seq<Seq<char>>, y: int, m: int, a: Seq<char>) -> bool {
    exists|i: int| 0 <= i < lines.len() && monthly_line_mentions(lines[i], y, m, a)
}

/// What one table entry contributes to the total of activity `a`.
pub open spec fn entry_total(e: (String, u64), a: Seq<char>) -> nat {
    if e.0@ == a {
        e.1 as nat
    } else {
        0
    }
}

/// The total recorded for activity `a` in a table of per-activity entries.
pub open spec fn table_total(es: Seq<(String, u64)>, a: Seq<char>) -> nat
    decreases es.len(),
{
    if es.len() == 0 {
        0
    } else {
        table_total(es.drop_last(), a) + entry_total(es.last(), a)
    }
}

pub open spec fn table_contains(es: Seq<(String, u64)>, a: Seq<char>) -> bool {
    exists|i: int| 0 <= i < es.len() && es[i].0@ == a
}

/// No two entries name the same activity.
pub open spec fn table_wf(es: Seq<(String, u64)>) -> bool {
    forall|i: int, j: int| 0 <= i < j < es.len() ==> es[i].0@ != es[j].0@
}

proof fn lemma_table_total_absent(es: Seq<(String, u64)>, a: Seq<char>)
    requires
        !table_contains(es, a),
    ensures
        table_total(es, a) == 0,
    decreases es.len(),
{
    if es.len() > 0 {
        assert(!table_contains(es.drop_last(), a)) by {
            if table_contains(es.drop_last(), a) {
                let i = choose|i: int|
                    0 <= i < es.drop_last().len() && es.drop_last()[i].0@ == a;
                assert(es[i].0@ == a);
            }
        }
        assert(es[es.len() - 1].0@ != a);
        lemma_table_total_absent(es.drop_last(), a);
    }
}

/// In a well-formed table the total for an activity is the value of its one
/// entry.
proof fn lemma_table_unique_total(es: Seq<(String, u64)>, i: int, a: Seq<char>)
    requires
        table_wf(es),
        0 <= i < es.len(),
        es[i].0@ == a,
    ensures
        table_total(es, a) == es[i].1,
    decreases es.len(),
{
    if i == es.len() - 1 {
        assert(!table_contains(es.drop_last(), a)) by {
            if table_contains(es.drop_last(), a) {
                let j = choose|j: int|
                    0 <= j < es.drop_last().len() && es.drop_last()[j].0@ == a;
                assert(es[j].0@ == a);
            }
        }
        lemma_table_total_absent(es.drop_last(), a);
    } else {
        assert(es.last().0@ != a);
        assert(table_wf(es.drop_last())) by {
            assert(forall|p: int, q: int|
                0 <= p < q < es.drop_last().len() ==> es.drop_last()[p] == es[p]
                    && es.drop_last()[q] == es[q]);
        }
        lemma_table_unique_total(es.drop_last(), i, a);
    }
}

/// Replacing the entry at `i` by one with the same activity shifts the total
/// of that activity by the difference and leaves every other total unchanged.
proof fn lemma_table_total_update(es: Seq<(String, u64)>, i: int, e: (String, u64), a: Seq<char>)
    requires
        0 <= i < es.len(),
    ensures
        table_total(es.update(i, e), a) + entry_total(es[i], a) == table_total(es, a)
            + entry_total(e, a),
    decreases es.len(),
{
    let es2 = es.update(i, e);
    if i == es.len() - 1 {
        assert(es2.drop_last() =~= es.drop_last());
        assert(es2.last() == e);
    } else {
        assert(es2.drop_last() =~= es.drop_last().update(i, e));
        assert(es2.last() == es.last());
        lemma_table_total_update(es.drop_last(), i, e, a);
    }
}

/// Add `duration` to the entry for `activity`, creating the entry (even for a
/// zero duration) if the table has none.
fn add_entry(entries: &mut Vec<(String, u64)>, activity: &str, duration: u64)
    requires
        table_wf(old(entries)@),
        table_total(old(entries)@, activity@) + duration <= u64::MAX,
    ensures
        table_wf(final(entries)@),
        forall|a: Seq<char>| #[trigger]
            table_total(final(entries)@, a) == table_total(old(entries)@, a) + (if a == activity@ {
                duration as nat
            } else {
                0nat
            }),
        forall|a: Seq<char>| #[trigger]
            table_contains(final(entries)@, a) == (table_contains(old(entries)@, a) || a
                == activity@),
{
    let n = entries.len();
    let mut idx: usize = n;
    let mut i: usize = 0;
    while i < n
        invariant
            n == entries@.len(),
            0 <= i <= n,
            *entries == *old(entries),
            idx == n || (idx < i && entries@[idx as int].0@ == activity@),
            idx == n ==> forall|j: int| 0 <= j < i ==> entries@[j].0@ != activity@,
        decreases n - i,
    {
        if idx == n {
            let e = &entries[i];
            if str_eq(e.0.as_str(), activity) {
                idx = i;
            }
        }
        i += 1;
    }
    if idx < n {
        proof {
            lemma_table_unique_total(entries@, idx as int, activity@);
        }
        let (name, total) = entries.remove(idx);
        entries.insert(idx, (name, total + duration));
        proof {
            let es = old(entries)@;
            let e2 = (name, (total + duration) as u64);
            assert(entries@ =~= es.update(idx as int, e2));
            assert(e2.0@ == es[idx as int].0@);
            assert forall|a: Seq<char>| #[trigger]
                table_total(entries@, a) == table_total(es, a) + (if a == activity@ {
                    duration as nat
                } else {
                    0nat
                }) by {
                lemma_table_total_update(es, idx as int, e2, a);
            }
            assert forall|a: Seq<char>| #[trigger]
                table_contains(entries@, a) == (table_contains(es, a) || a == activity@) by {
                if table_contains(entries@, a) {
                    let j = choose|j: int| 0 <= j < entries@.len() && entries@[j].0@ == a;
                    assert(es[j].0@ == entries@[j].0@);
                }
                if table_contains(es, a) {
                    let j = choose|j: int| 0 <= j < es.len() && es[j].0@ == a;
                    assert(entries@[j].0@ == es[j].0@);
                }
                if a == activity@ {
                    assert(entries@[idx as int].0@ == a);
                }
            }
            assert(table_wf(entries@)) by {
                assert(forall|p: int|
                    0 <= p < entries@.len() ==> entries@[p].0@ == es[p].0@);
            }
        }
    } else {
        proof {
            assert(!table_contains(entries@, activity@));
            lemma_table_total_absent(entries@, activity@);
        }
        let name = String::from_str(activity);
        entries.push((name, duration));
        proof {
            let es = old(entries)@;
            assert(entries@.drop_last() =~= es);
            assert(entries@.last().0@ == activity@);
            assert forall|a: Seq<char>| #[trigger]
                table_total(entries@, a) == table_total(es, a) + (if a == activity@ {
                    duration as nat
                } else {
                    0nat
                }) by {
                assert(table_total(entries@, a) == table_total(es, a) + entry_total(
                    entries@.last(),
                    a,
                ));
            }
            assert forall|a: Seq<char>| #[trigger]
                table_contains(entries@, a) == (table_contains(es, a) || a == activity@) by {
                if table_contains(entries@, a) {
                    let j = choose|j: int| 0 <= j < entries@.len() && entries@[j].0@ == a;
                    if j < es.len() {
                        assert(es[j].0@ == a);
                    }
                }
                if table_contains(es, a) {
                    let j = choose|j: int| 0 <= j < es.len() && es[j].0@ == a;
                    assert(entries@[j].0@ == a);
                }
                if a == activity@ {
                    assert(entries@[entries@.len() - 1].0@ == a);
                }
            }
            assert(table_wf(entries@)) by {
                assert(forall|p: int| 0 <= p < es.len() ==> entries@[p].0@ == es[p].0@);
                assert(forall|p: int| 0 <= p < es.len() ==> es[p].0@ != activity@);
            }
        }
    }
}

/// A per-activity totals table: the result of the daily and monthly queries,
/// and one weekday's share of the weekly query.
#[derive(Debug)]
pub struct Summary {
    pub entries: Vec<(String, u64)>,
}

impl Summary {
    /// No activity appears twice.
    pub open spec fn wf(self) -> bool {
        table_wf(self.entries@)
    }

    /// The total recorded for activity `a`: zero when absent.
    pub open spec fn total(self, a: Seq<char>) -> nat {
        table_total(self.entries@, a)
    }

    /// Whether activity `a` has an entry, possibly with total zero.
    pub open spec fn has_activity(self, a: Seq<char>) -> bool {
        table_contains(self.entries@, a)
    }

    /// How many activities have entries.
    pub fn len(&self) -> (r: usize)
        ensures
            r == self.entries@.len(),
    {
        self.entries.len()
    }

    /// Whether `activity` has an entry.
    pub fn contains(&self, activity: &str) -> (r: bool)
        ensures
            r == self.has_activity(activity@),
    {
        let n = self.entries.len();
        let mut i: usize = 0;
        while i < n
            invariant
                n == self.entries@.len(),
                0 <= i <= n,
                forall|j: int| 0 <= j < i ==> self.entries@[j].0@ != activity@,
            decreases n - i,
        {
            let e = &self.entries[i];
            if str_eq(e.0.as_str(), activity) {
                return true;
            }
            i += 1;
        }
        false
    }

    /// The total for `activity`, zero when it has no entry.
    pub fn total_of(&self, activity: &str) -> (r: u64)
        requires
            self.wf(),
        ensures
            r as nat == self.total(activity@),
    {
        let n = self.entries.len();
        let mut i: usize = 0;
        while i < n
            invariant
                self.wf(),
                n == self.entries@.len(),
                0 <= i <= n,
                forall|j: int| 0 <= j < i ==> self.entries@[j].0@ != activity@,
            decreases n - i,
        {
            let e = &self.entries[i];
            if str_eq(e.0.as_str(), activity) {
                proof {
                    lemma_table_unique_total(self.entries@, i as int, activity@);
                }
                return e.1;
            }
            i += 1;
        }
        proof {
            assert(!table_contains(self.entries@, activity@));
            lemma_table_total_absent(self.entries@, activity@);
        }
        0
    }
}

/// One step of a scan: the totals over one more line.
proof fn lemma_take_step(lines: Seq<Seq<char>>, i: int)
    requires
        0 <= i < lines.len(),
    ensures
        forall|today: Seq<char>, a: Seq<char>| #[trigger]
            daily_total(lines.take(i + 1), today, a) == daily_total(lines.take(i), today, a)
                + daily_line_total(lines[i], today, a),
        forall|wd: int, a: Seq<char>| #[trigger]
            weekly_total(lines.take(i + 1), wd, a) == weekly_total(lines.take(i), wd, a)
                + weekly_line_total(lines[i], wd, a),
        forall|y: int, m: int, a: Seq<char>| #[trigger]
            monthly_total(lines.take(i + 1), y, m, a) == monthly_total(lines.take(i), y, m, a)
                + monthly_line_total(lines[i], y, m, a),
{
    assert(lines.take(i + 1).drop_last() =~= lines.take(i));
    assert(lines.take(i + 1).last() == lines[i]);
}

/// A scan's running total never exceeds the total over all lines.
proof fn lemma_take_bound(lines: Seq<Seq<char>>, i: int)
    requires
        0 <= i <= lines.len(),
    ensures
        forall|today: Seq<char>, a: Seq<char>| #[trigger]
            daily_total(lines.take(i), today, a) <= daily_total(lines, today, a),
        forall|wd: int, a: Seq<char>| #[trigger]
            weekly_total(lines.take(i), wd, a) <= weekly_total(lines, wd, a),
        forall|y: int, m: int, a: Seq<char>| #[trigger]
            monthly_total(lines.take(i), y, m, a) <= monthly_total(lines, y, m, a),
    decreases lines.len() - i,
{
    if i == lines.len() {
        assert(lines.take(i) =~= lines);
    } else {
        lemma_take_step(lines, i);
        lemma_take_bound(lines, i + 1);
        assert forall|today: Seq<char>, a: Seq<char>| #[trigger]
            daily_total(lines.take(i), today, a) <= daily_total(lines, today, a) by {
            assert(daily_total(lines.take(i + 1), today, a) <= daily_total(lines, today, a));
            assert(daily_total(lines.take(i + 1), today, a) == daily_total(lines.take(i), today, a)
                + daily_line_total(lines[i], today, a));
        }
        assert forall|wd: int, a: Seq<char>| #[trigger]
            weekly_total(lines.take(i), wd, a) <= weekly_total(lines, wd, a) by {
            assert(weekly_total(lines.take(i + 1), wd, a) <= weekly_total(lines, wd, a));
            assert(weekly_total(lines.take(i + 1), wd, a) == weekly_total(lines.take(i), wd, a)
                + weekly_line_total(lines[i], wd, a));
        }
        assert forall|y: int, m: int, a: Seq<char>| #[trigger]
            monthly_total(lines.take(i), y, m, a) <= monthly_total(lines, y, m, a) by {
            assert(monthly_total(lines.take(i + 1), y, m, a) <= monthly_total(lines, y, m, a));
            assert(monthly_total(lines.take(i + 1), y, m, a) == monthly_total(lines.take(i), y, m, a)
                + monthly_line_total(lines[i], y, m, a));
        }
    }
}

/// One step of a scan, for presence: a line mentions an activity or leaves
/// the picture unchanged.
proof fn lemma_mentions_step(lines: Seq<Seq<char>>, i: int)
    requires
        0 <= i < lines.len(),
    ensures
        forall|today: Seq<char>, a: Seq<char>| #[trigger]
            daily_mentions(lines.take(i + 1), today, a) == (daily_mentions(
                lines.take(i),
                today,
                a,
            ) || daily_line_mentions(lines[i], today, a)),
        forall|wd: int, a: Seq<char>| #[trigger]
            weekly_mentions(lines.take(i + 1), wd, a) == (weekly_mentions(lines.take(i), wd, a)
                || weekly_line_mentions(lines[i], wd, a)),
        forall|y: int, m: int, a: Seq<char>| #[trigger]
            monthly_mentions(lines.take(i + 1), y, m, a) == (monthly_mentions(
                lines.take(i),
                y,
                m,
                a,
            ) || monthly_line_mentions(lines[i], y, m, a)),
{
    assert forall|today: Seq<char>, a: Seq<char>| #[trigger]
        daily_mentions(lines.take(i + 1), today, a) == (daily_mentions(lines.take(i), today, a)
            || daily_line_mentions(lines[i], today, a)) by {
        if daily_mentions(lines.take(i + 1), today, a) {
            let j = choose|j: int|
                0 <= j < i + 1 && #[trigger] daily_line_mentions(lines.take(i + 1)[j], today, a);
            if j < i {
                assert(daily_line_mentions(lines.take(i)[j], today, a));
            } else {
                assert(daily_line_mentions(lines[i], today, a));
            }
        }
        if daily_mentions(lines.take(i), today, a) {
            let j = choose|j: int| 0 <= j < i && #[trigger] daily_line_mentions(lines.take(i)[j], today, a);
            assert(daily_line_mentions(lines.take(i + 1)[j], today, a));
        }
        if daily_line_mentions(lines[i], today, a) {
            assert(daily_line_mentions(lines.take(i + 1)[i], today, a));
        }
    }
    assert forall|wd: int, a: Seq<char>| #[trigger]
        weekly_mentions(lines.take(i + 1), wd, a) == (weekly_mentions(lines.take(i), wd, a)
            || weekly_line_mentions(lines[i], wd, a)) by {
        if weekly_mentions(lines.take(i + 1), wd, a) {
            let j = choose|j: int|
                0 <= j < i + 1 && #[trigger] weekly_line_mentions(lines.take(i + 1)[j], wd, a);
            if j < i {
                assert(weekly_line_mentions(lines.take(i)[j], wd, a));
            } else {
                assert(weekly_line_mentions(lines[i], wd, a));
            }
        }
        if weekly_mentions(lines.take(i), wd, a) {
            let j = choose|j: int| 0 <= j < i && #[trigger] weekly_line_mentions(lines.take(i)[j], wd, a);
            assert(weekly_line_mentions(lines.take(i + 1)[j], wd, a));
        }
        if weekly_line_mentions(lines[i], wd, a) {
            assert(weekly_line_mentions(lines.take(i + 1)[i], wd, a));
        }
    }
    assert forall|y: int, m: int, a: Seq<char>| #[trigger]
        monthly_mentions(lines.take(i + 1), y, m, a) == (monthly_mentions(lines.take(i), y, m, a)
            || monthly_line_mentions(lines[i], y, m, a)) by {
        if monthly_mentions(lines.take(i + 1), y, m, a) {
            let j = choose|j: int|
                0 <= j < i + 1 && #[trigger] monthly_line_mentions(lines.take(i + 1)[j], y, m, a);
            if j < i {
                assert(monthly_line_mentions(lines.take(i)[j], y, m, a));
            } else {
                assert(monthly_line_mentions(lines[i], y, m, a));
            }
        }
        if monthly_mentions(lines.take(i), y, m, a) {
            let j = choose|j: int| 0 <= j < i && #[trigger] monthly_line_mentions(lines.take(i)[j], y, m, a);
            assert(monthly_line_mentions(lines.take(i + 1)[j], y, m, a));
        }
        if monthly_line_mentions(lines[i], y, m, a) {
            assert(monthly_line_mentions(lines.take(i + 1)[i], y, m, a));
        }
    }
}

/// Split the log text into the lines the readers see, as `lines_of` gives
/// them.
fn split_lines<'a>(content: &'a str) -> (r: Vec<&'a str>)
    ensures
        r@.len() == lines_of(content@).len(),
        forall|i: int| 0 <= i < r@.len() ==> r@[i]@ == lines_of(content@)[i],
{
    let raw = split_str(content, '\n');
    let n = raw.len();
    let mut out: Vec<&'a str> = Vec::new();
    let mut i: usize = 0;
    while i < n
        invariant
            n == raw@.len(),
            raw@.len() == split_chars(content@, '\n').len(),
            forall|k: int| 0 <= k < n ==> raw@[k]@ == split_chars(content@, '\n')[k],
            0 <= i <= n,
            out@.len() == i,
            forall|k: int| 0 <= k < i ==> out@[k]@ == lines_of(content@)[k],
        decreases n - i,
    {
        if i + 1 < n {
            out.push(strip_cr_str(raw[i]));
        } else {
            out.push(raw[i]);
        }
        i += 1;
    }
    out
}

/// The daily summary: the total duration per activity among the lines whose
/// date field equals, as plain text, the formatted date of `today`. Lines
/// without exactly three fields are skipped; date fields are never parsed, so
/// this query never fails on content. An activity appears in the result, even
/// with total zero, exactly when some line of today mentions it.
pub fn daily_summary(content: &str, today: &Date) -> (r: Summary)
    requires
        today.valid(),
        forall|a: Seq<char>| #[trigger]
            daily_total(lines_of(content@), date_chars(*today), a) <= u64::MAX,
    ensures
        r.wf(),
        forall|a: Seq<char>| #[trigger]
            r.total(a) == daily_total(lines_of(content@), date_chars(*today), a),
        forall|a: Seq<char>| #[trigger]
            r.has_activity(a) == daily_mentions(lines_of(content@), date_chars(*today), a),
{
    let today_str = format_date(today);
    let lines = split_lines(content);
    let ghost spec_lines = lines_of(content@);
    let mut entries: Vec<(String, u64)> = Vec::new();
    proof {
        assert(spec_lines.take(0) =~= Seq::<Seq<char>>::empty());
    }
    let n = lines.len();
    let mut li: usize = 0;
    while li < n
        invariant
            n == lines@.len(),
            lines@.len() == spec_lines.len(),
            forall|k: int| 0 <= k < n ==> lines@[k]@ == spec_lines[k],
            spec_lines == lines_of(content@),
            today_str@ == date_chars(*today),
            0 <= li <= n,
            forall|a: Seq<char>| #[trigger]
                daily_total(spec_lines, today_str@, a) <= u64::MAX,
            table_wf(entries@),
            forall|a: Seq<char>| #[trigger]
                table_total(entries@, a) == daily_total(spec_lines.take(li as int), today_str@, a),
            forall|a: Seq<char>| #[trigger]
                table_contains(entries@, a) == daily_mentions(
                    spec_lines.take(li as int),
                    today_str@,
                    a,
                ),
        decreases n - li,
    {
        let line: &str = lines[li];
        let fields = split_str(line, ',');
        proof {
            lemma_take_step(spec_lines, li as int);
            lemma_mentions_step(spec_lines, li as int);
        }
        if fields.len() == 3 {
            if str_eq(fields[0], today_str.as_str()) {
                let dur = parse_duration(fields[2]);
                proof {
                    lemma_take_bound(spec_lines, li as int + 1);
                    let a = fields@[1]@;
                    assert(daily_line_total(spec_lines[li as int], today_str@, a) == dur as nat);
                    assert(daily_total(spec_lines.take(li as int + 1), today_str@, a)
                        == table_total(entries@, a) + dur as nat);
                    assert(daily_total(spec_lines.take(li as int + 1), today_str@, a)
                        <= daily_total(spec_lines, today_str@, a));
                }
                add_entry(&mut entries, fields[1], dur);
                proof {
                    assert forall|a: Seq<char>| #[trigger]
                        table_total(entries@, a) == daily_total(
                            spec_lines.take(li as int + 1),
                            today_str@,
                            a,
                        ) by {
                        if a == fields@[1]@ {
                            assert(daily_line_total(spec_lines[li as int], today_str@, a)
                                == dur as nat);
                        } else {
                            assert(daily_line_total(spec_lines[li as int], today_str@, a) == 0);
                        }
                    }
                    assert forall|a: Seq<char>| #[trigger]
                        table_contains(entries@, a) == daily_mentions(
                            spec_lines.take(li as int + 1),
                            today_str@,
                            a,
                        ) by {
                        if a == fields@[1]@ {
                            assert(daily_line_mentions(spec_lines[li as int], today_str@, a));
                        } else {
                            assert(!daily_line_mentions(spec_lines[li as int], today_str@, a));
                        }
                    }
                }
            } else {
                proof {
                    assert forall|a: Seq<char>| #[trigger]
                        daily_line_total(spec_lines[li as int], today_str@, a) == 0
                            && !daily_line_mentions(spec_lines[li as int], today_str@, a) by {
                        assert(daily_fields(spec_lines[li as int])[0] != today_str@);
                    }
                }
            }
        } else {
            proof {
                assert forall|a: Seq<char>| #[trigger]
                    daily_line_total(spec_lines[li as int], today_str@, a) == 0
                        && !daily_line_mentions(spec_lines[li as int], today_str@, a) by {
                    assert(daily_fields(spec_lines[li as int]).len() != 3);
                }
            }
        }
        li += 1;
    }
    proof {
        assert(spec_lines.take(n as int) =~= spec_lines);
    }
    Summary { entries }
}

/// Why a strict query failed: some well-formed line carries a date field that
/// is not a real `YYYY-MM-DD` calendar day.
#[derive(Clone, Copy, Debug, PartialEq, Eq, Structural)]
pub enum SummaryError {
    InvalidDate,
}

/// The four activity codes every weekday of the weekly summary starts with.
pub open spec fn seeded_activity(a: Seq<char>) -> bool {
    a == "U"@ || a == "E"@ || a == "S"@ || a == "F"@
}

/// The summary of one weekday within `days`, numbering Monday 1 through
/// Sunday 7.
pub open spec fn day_at(days: Seq<Summary>, wd: int) -> Summary {
    days[wd - 1]
}

/// A weekday table as the weekly query starts it: the four seeded activities,
/// each with total zero, and nothing else.
pub open spec fn is_seeded(s: Summary) -> bool {
    &&& s.wf()
    &&& forall|a: Seq<char>| #[trigger] table_total(s.entries@, a) == 0
    &&& forall|a: Seq<char>| #[trigger] table_contains(s.entries@, a) == seeded_activity(a)
}

fn seeded_summary() -> (r: Summary)
    ensures
        is_seeded(r),
{
    let mut entries: Vec<(String, u64)> = Vec::new();
    entries.push((String::from_str("U"), 0));
    entries.push((String::from_str("E"), 0));
    entries.push((String::from_str("S"), 0));
    entries.push((String::from_str("F"), 0));
    proof {
        reveal_strlit("U");
        reveal_strlit("E");
        reveal_strlit("S");
        reveal_strlit("F");
        let e = entries@;
        assert(e.len() == 4);
        assert(e[0].0@ == "U"@ && e[1].0@ == "E"@ && e[2].0@ == "S"@ && e[3].0@ == "F"@);
        assert(e[0].1 == 0 && e[1].1 == 0 && e[2].1 == 0 && e[3].1 == 0);
        assert("U"@[0] == 'U' && "E"@[0] == 'E' && "S"@[0] == 'S' && "F"@[0] == 'F');
        assert(table_wf(e));
        let e3 = e.drop_last();
        let e2 = e3.drop_last();
        let e1 = e2.drop_last();
        let e0 = e1.drop_last();
        assert(e0.len() == 0);
        assert forall|a: Seq<char>| #[trigger] table_total(e, a) == 0 by {
            assert(table_total(e0, a) == 0);
            assert(entry_total(e1.last(), a) == 0);
            assert(table_total(e1, a) == 0);
            assert(entry_total(e2.last(), a) == 0);
            assert(table_total(e2, a) == 0);
            assert(entry_total(e3.last(), a) == 0);
            assert(table_total(e3, a) == 0);
            assert(entry_total(e.last(), a) == 0);
        }
        assert forall|a: Seq<char>| #[trigger] table_contains(e, a) == seeded_activity(a) by {
            if table_contains(e, a) {
                let j = choose|j: int| 0 <= j < e.len() && e[j].0@ == a;
                assert(j == 0 || j == 1 || j == 2 || j == 3);
            }
            if seeded_activity(a) {
                if a == "U"@ {
                    assert(e[0].0@ == a);
                } else if a == "E"@ {
                    assert(e[1].0@ == a);
                } else if a == "S"@ {
                    assert(e[2].0@ == a);
                } else {
                    assert(e[3].0@ == a);
                }
            }
        }
    }
    Summary { entries }
}

/// The weekly summary: one totals table per weekday, Monday through Sunday,
/// each seeded with the four activity codes at zero.
#[derive(Debug)]
pub struct WeekSummary {
    pub days: Vec<Summary>,
}

impl WeekSummary {
    pub open spec fn wf(self) -> bool {
        self.days@.len() == 7 && forall|j: int| 0 <= j < 7 ==> (#[trigger] self.days@[j]).wf()
    }

    /// The total for activity `a` on weekday `wd` (1 is Monday, 7 is Sunday).
    pub open spec fn day_total(self, wd: int, a: Seq<char>) -> nat {
        day_at(self.days@, wd).total(a)
    }

    /// Whether weekday `wd` lists activity `a`, possibly with total zero.
    pub open spec fn day_has_activity(self, wd: int, a: Seq<char>) -> bool {
        day_at(self.days@, wd).has_activity(a)
    }

    /// The totals table of weekday `wd` (1 is Monday, 7 is Sunday).
    pub fn day(&self, weekday: u8) -> (r: &Summary)
        requires
            self.wf(),
            1 <= weekday <= 7,
        ensures
            *r == day_at(self.days@, weekday as int),
    {
        &self.days[(weekday - 1) as usize]
    }
}

/// The English name of a weekday, numbering Monday 1 through Sunday 7: the
/// keys of the weekly summary.
pub open spec fn weekday_name_chars(wd: int) -> Seq<char> {
    if wd == 1 {
        "Monday"@
    } else if wd == 2 {
        "Tuesday"@
    } else if wd == 3 {
        "Wednesday"@
    } else if wd == 4 {
        "Thursday"@
    } else if wd == 5 {
        "Friday"@
    } else if wd == 6 {
        "Saturday"@
    } else {
        "Sunday"@
    }
}

pub fn weekday_name(weekday: u8) -> (r: &'static str)
    requires
        1 <= weekday <= 7,
    ensures
        r@ == weekday_name_chars(weekday as int),
{
    match weekday {
        1 => "Monday",
        2 => "Tuesday",
        3 => "Wednesday",
        4 => "Thursday",
        5 => "Friday",
        6 => "Saturday",
        _ => "Sunday",
    }
}

/// The weekly summary over the whole history: every line's duration is added
/// under the weekday of its date, for its activity. Each weekday starts with
/// the four seeded activity codes at zero, so all seven weekdays and those
/// four codes are always present. The query fails, returning no partial
/// result, exactly when some three-field line has a date that is not a real
/// `YYYY-MM-DD` day.
pub fn weekly_summary(content: &str) -> (r: Result<WeekSummary, SummaryError>)
    requires
        forall|wd: int, a: Seq<char>| #[trigger]
            weekly_total(lines_of(content@), wd, a) <= u64::MAX,
    ensures
        r is Err <==> has_bad_date(lines_of(content@)),
        r is Ok ==> (r->Ok_0).wf(),
        r is Ok ==> forall|wd: int, a: Seq<char>|
            1 <= wd <= 7 ==> #[trigger] (r->Ok_0).day_total(wd, a) == weekly_total(
                lines_of(content@),
                wd,
                a,
            ),
        r is Ok ==> forall|wd: int, a: Seq<char>|
            1 <= wd <= 7 ==> #[trigger] (r->Ok_0).day_has_activity(wd, a) == (seeded_activity(a)
                || weekly_mentions(lines_of(content@), wd, a)),
{
    let mut days: Vec<Summary> = Vec::new();
    let mut k: usize = 0;
    while k < 7
        invariant
            days@.len() == k,
            0 <= k <= 7,
            forall|j: int| 0 <= j < k ==> is_seeded(#[trigger] days@[j]),
        decreases 7 - k,
    {
        days.push(seeded_summary());
        k += 1;
    }
    let lines = split_lines(content);
    let ghost spec_lines = lines_of(content@);
    proof {
        assert(spec_lines.take(0) =~= Seq::<Seq<char>>::empty());
    }
    let n = lines.len();
    let mut li: usize = 0;
    while li < n
        invariant
            n == lines@.len(),
            lines@.len() == spec_lines.len(),
            forall|j: int| 0 <= j < n ==> lines@[j]@ == spec_lines[j],
            spec_lines == lines_of(content@),
            0 <= li <= n,
            forall|wd: int, a: Seq<char>| #[trigger]
                weekly_total(spec_lines, wd, a) <= u64::MAX,
            days@.len() == 7,
            forall|j: int| 0 <= j < 7 ==> (#[trigger] days@[j]).wf(),
            forall|wd: int, a: Seq<char>|
                1 <= wd <= 7 ==> #[trigger] table_total(day_at(days@, wd).entries@, a)
                    == weekly_total(spec_lines.take(li as int), wd, a),
            forall|wd: int, a: Seq<char>|
                1 <= wd <= 7 ==> #[trigger] table_contains(day_at(days@, wd).entries@, a) == (
                seeded_activity(a) || weekly_mentions(spec_lines.take(li as int), wd, a)),
            forall|j: int| 0 <= j < li ==> !line_has_bad_date(#[trigger] spec_lines[j]),
        decreases n - li,
    {
        let line: &str = lines[li];
        let trimmed = trim_str(line);
        let fields = split_str(trimmed, ',');
        proof {
            lemma_take_step(spec_lines, li as int);
            lemma_mentions_step(spec_lines, li as int);
        }
        if fields.len() == 3 {
            let date = match parse_date(fields[0]) {
                Some(d) => d,
                None => {
                    proof {
                        assert(line_has_bad_date(spec_lines[li as int]));
                    }
                    return Err(SummaryError::InvalidDate);
                },
            };
            let wd = weekday_number(date.year, date.month, date.day);
            let dur = parse_duration(fields[2]);
            let ghost f0 = scan_fields(spec_lines[li as int])[0];
            proof {
                assert(date.year as int == year_of_chars(f0) && date.month as int
                    == month_of_chars(f0) && date.day as int == day_of_chars(f0));
                lemma_take_bound(spec_lines, li as int + 1);
                let a = fields@[1]@;
                assert(weekly_line_total(spec_lines[li as int], wd as int, a) == dur as nat);
                assert(weekly_line_mentions(spec_lines[li as int], wd as int, a));
                assert(weekly_total(spec_lines.take(li as int + 1), wd as int, a) == table_total(
                    day_at(days@, wd as int).entries@,
                    a,
                ) + dur as nat);
                assert(weekly_total(spec_lines.take(li as int + 1), wd as int, a) <= weekly_total(
                    spec_lines,
                    wd as int,
                    a,
                ));
            }
            let wdi = (wd - 1) as usize;
            let ghost old_days = days@;
            let mut day = days.remove(wdi);
            add_entry(&mut day.entries, fields[1], dur);
            days.insert(wdi, day);
            proof {
                assert(days@ =~= old_days.update(wdi as int, day));
                assert forall|wd2: int, a: Seq<char>| 1 <= wd2 <= 7 implies #[trigger] table_total(
                    day_at(days@, wd2).entries@,
                    a,
                ) == weekly_total(spec_lines.take(li as int + 1), wd2, a) by {
                    if wd2 == wd as int {
                        if a == fields@[1]@ {
                        } else {
                            assert(weekly_line_total(spec_lines[li as int], wd2, a) == 0);
                        }
                    } else {
                        assert(day_at(days@, wd2) == day_at(old_days, wd2));
                        assert(weekly_line_total(spec_lines[li as int], wd2, a) == 0);
                    }
                }
                assert forall|wd2: int, a: Seq<char>| 1 <= wd2 <= 7 implies #[trigger]
                    table_contains(day_at(days@, wd2).entries@, a) == (seeded_activity(a)
                        || weekly_mentions(spec_lines.take(li as int + 1), wd2, a)) by {
                    if wd2 == wd as int {
                        if a == fields@[1]@ {
                            assert(weekly_line_mentions(spec_lines[li as int], wd2, a));
                        } else {
                            assert(!weekly_line_mentions(spec_lines[li as int], wd2, a));
                        }
                    } else {
                        assert(day_at(days@, wd2) == day_at(old_days, wd2));
                        assert(!weekly_line_mentions(spec_lines[li as int], wd2, a));
                    }
                }
                assert forall|j: int| 0 <= j < 7 implies (#[trigger] days@[j]).wf() by {
                    if j != wdi as int {
                        assert(days@[j] == old_days[j]);
                    }
                }
            }
        } else {
            proof {
                assert forall|wd2: int, a: Seq<char>| 1 <= wd2 <= 7 implies weekly_line_total(
                    spec_lines[li as int],
                    wd2,
                    a,
                ) == 0 && !weekly_line_mentions(spec_lines[li as int], wd2, a) by {
                    assert(scan_fields(spec_lines[li as int]).len() != 3);
                }
                assert(!line_has_bad_date(spec_lines[li as int]));
            }
        }
        li += 1;
    }
    proof {
        assert(spec_lines.take(n as int) =~= spec_lines);
        if has_bad_date(spec_lines) {
            let j = choose|j: int| 0 <= j < spec_lines.len() && line_has_bad_date(spec_lines[j]);
            assert(!line_has_bad_date(spec_lines[j]));
        }
    }
    Ok(WeekSummary { days })
}

/// The monthly summary: the total duration per activity among the lines whose
/// date falls in the same calendar year and month as `today` — any day of
/// that month. The query fails, returning no partial result, exactly when
/// some three-field line has a date that is not a real `YYYY-MM-DD` day.
pub fn monthly_summary(content: &str, today: &Date) -> (r: Result<Summary, SummaryError>)
    requires
        today.valid(),
        forall|a: Seq<char>| #[trigger]
            monthly_total(lines_of(content@), today.year as int, today.month as int, a)
                <= u64::MAX,
    ensures
        r is Err <==> has_bad_date(lines_of(content@)),
        r is Ok ==> (r->Ok_0).wf(),
        r is Ok ==> forall|a: Seq<char>| #[trigger]
            (r->Ok_0).total(a) == monthly_total(
                lines_of(content@),
                today.year as int,
                today.month as int,
                a,
            ),
        r is Ok ==> forall|a: Seq<char>| #[trigger]
            (r->Ok_0).has_activity(a) == monthly_mentions(
                lines_of(content@),
                today.year as int,
                today.month as int,
                a,
            ),
{
    let ghost y = today.year as int;
    let ghost m = today.month as int;
    let lines = split_lines(content);
    let ghost spec_lines = lines_of(content@);
    let mut entries: Vec<(String, u64)> = Vec::new();
    proof {
        assert(spec_lines.take(0) =~= Seq::<Seq<char>>::empty());
    }
    let n = lines.len();
    let mut li: usize = 0;
    while li < n
        invariant
            n == lines@.len(),
            lines@.len() == spec_lines.len(),
            forall|j: int| 0 <= j < n ==> lines@[j]@ == spec_lines[j],
            spec_lines == lines_of(content@),
            y == today.year as int,
            m == today.month as int,
            0 <= li <= n,
            forall|a: Seq<char>| #[trigger] monthly_total(spec_lines, y, m, a) <= u64::MAX,
            table_wf(entries@),
            forall|a: Seq<char>| #[trigger]
                table_total(entries@, a) == monthly_total(spec_lines.take(li as int), y, m, a),
            forall|a: Seq<char>| #[trigger]
                table_contains(entries@, a) == monthly_mentions(
                    spec_lines.take(li as int),
                    y,
                    m,
                    a,
                ),
            forall|j: int| 0 <= j < li ==> !line_has_bad_date(#[trigger] spec_lines[j]),
        decreases n - li,
    {
        let line: &str = lines[li];
        let trimmed = trim_str(line);
        let fields = split_str(trimmed, ',');
        proof {
            lemma_take_step(spec_lines, li as int);
            lemma_mentions_step(spec_lines, li as int);
        }
        if fields.len() == 3 {
            let date = match parse_date(fields[0]) {
                Some(d) => d,
                None => {
                    proof {
                        assert(line_has_bad_date(spec_lines[li as int]));
                    }
                    return Err(SummaryError::InvalidDate);
                },
            };
            let ghost f0 = scan_fields(spec_lines[li as int])[0];
            proof {
                assert(date.year as int == year_of_chars(f0) && date.month as int
                    == month_of_chars(f0));
            }
            if date.year == today.year && date.month == today.month {
                let dur = parse_duration(fields[2]);
                proof {
                    lemma_take_bound(spec_lines, li as int + 1);
                    let a = fields@[1]@;
                    assert(monthly_line_total(spec_lines[li as int], y, m, a) == dur as nat);
                    assert(monthly_total(spec_lines.take(li as int + 1), y, m, a) == table_total(
                        entries@,
                        a,
                    ) + dur as nat);
                    assert(monthly_total(spec_lines.take(li as int + 1), y, m, a)
                        <= monthly_total(spec_lines, y, m, a));
                }
                add_entry(&mut entries, fields[1], dur);
                proof {
                    assert forall|a: Seq<char>| #[trigger]
                        table_total(entries@, a) == monthly_total(
                            spec_lines.take(li as int + 1),
                            y,
                            m,
                            a,
                        ) by {
                        if a == fields@[1]@ {
                        } else {
                            assert(monthly_line_total(spec_lines[li as int], y, m, a) == 0);
                        }
                    }
                    assert forall|a: Seq<char>| #[trigger]
                        table_contains(entries@, a) == monthly_mentions(
                            spec_lines.take(li as int + 1),
                            y,
                            m,
                            a,
                        ) by {
                        if a == fields@[1]@ {
                            assert(monthly_line_mentions(spec_lines[li as int], y, m, a));
                        } else {
                            assert(!monthly_line_mentions(spec_lines[li as int], y, m, a));
                        }
                    }
                }
            } else {
                proof {
                    assert(year_of_chars(f0) != y || month_of_chars(f0) != m);
                    assert forall|a: Seq<char>| #[trigger]
                        monthly_line_total(spec_lines[li as int], y, m, a) == 0
                            && !monthly_line_mentions(spec_lines[li as int], y, m, a) by {}
                }
            }
        } else {
            proof {
                assert forall|a: Seq<char>| #[trigger]
                    monthly_line_total(spec_lines[li as int], y, m, a) == 0
                        && !monthly_line_mentions(spec_lines[li as int], y, m, a) by {
                    assert(scan_fields(spec_lines[li as int]).len() != 3);
                }
                assert(!line_has_bad_date(spec_lines[li as int]));
            }
        }
        li += 1;
    }
    proof {
        assert(spec_lines.take(n as int) =~= spec_lines);
        if has_bad_date(spec_lines) {
            let j = choose|j: int| 0 <= j < spec_lines.len() && line_has_bad_date(spec_lines[j]);
            assert(!line_has_bad_date(spec_lines[j]));
        }
    }
    Ok(Summary { entries })
}

} // verus!
