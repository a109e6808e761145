//! Laws of the log as a whole: what appending records does to the summaries,
//! and which lines the summaries ignore. Each public proof function states
//! one such law over the models that the executable functions' contracts use.

use vstd::prelude::*;

use crate::date::Date;
use crate::date::date_chars;
use crate::date::is_date_chars;
use crate::date::lemma_date_chars_plain;
use crate::date::month_of_chars;
use crate::date::year_of_chars;
use crate::numbers::is_digit_char;
use crate::numbers::is_u64_chars;
use crate::numbers::lemma_duration_round_trip;
use crate::numbers::lemma_u64_chars_value;
use crate::numbers::u64_chars;
use crate::record::record_chars;
use crate::summary::daily_fields;
use crate::summary::daily_line_total;
use crate::summary::daily_total;
use crate::summary::has_bad_date;
use crate::summary::line_has_bad_date;
use crate::summary::lines_of;
use crate::summary::monthly_line_total;
use crate::summary::monthly_total;
use crate::summary::scan_fields;
use crate::summary::weekly_line_total;
use crate::summary::weekly_total;
use crate::text::count_char;
use crate::text::is_space_char;
use crate::text::lemma_count_char_push;
use crate::text::lemma_split_at_least_one;
use crate::text::lemma_split_concat;
use crate::text::lemma_split_no_sep;
use crate::text::lemma_split_sep_concat;
use crate::text::split_chars;
use crate::text::strip_cr;
use crate::text::trim_chars;
use crate::text::trim_end_chars;
use crate::text::trim_start_chars;

verus! {

proof fn lemma_count_concat(a: Seq<char>, b: Seq<char>, c: char)
    ensures
        count_char(a + b, c) == count_char(a, c) + count_char(b, c),
    decreases a.len(),
{
    if a.len() == 0 {
        assert(a + b =~= b);
    } else {
        assert((a + b)[0] == a[0]);
        assert((a + b).drop_first() =~= a.drop_first() + b);
        lemma_count_concat(a.drop_first(), b, c);
    }
}

proof fn lemma_count_zero(s: Seq<char>, c: char)
    requires
        forall|i: int| 0 <= i < s.len() ==> s[i] != c,
    ensures
        count_char(s, c) == 0,
    decreases s.len(),
{
    if s.len() > 0 {
        lemma_count_zero(s.drop_first(), c);
    }
}

/// Trimming removes only whitespace, so it cannot change how many commas — or
/// any other non-whitespace character — a line holds.
proof fn lemma_count_trim(s: Seq<char>, c: char)
    requires
        !is_space_char(c),
    ensures
        count_char(trim_chars(s), c) == count_char(s, c),
{
    lemma_count_trim_start(s, c);
    lemma_count_trim_end(trim_start_chars(s), c);
}

proof fn lemma_count_trim_start(s: Seq<char>, c: char)
    requires
        !is_space_char(c),
    ensures
        count_char(trim_start_chars(s), c) == count_char(s, c),
    decreases s.len(),
{
    if s.len() > 0 && is_space_char(s[0]) {
        assert(s[0] != c);
        lemma_count_trim_start(s.drop_first(), c);
    }
}

proof fn lemma_count_trim_end(s: Seq<char>, c: char)
    requires
        !is_space_char(c),
    ensures
        count_char(trim_end_chars(s), c) == count_char(s, c),
    decreases s.len(),
{
    if s.len() > 0 && is_space_char(s.last()) {
        assert(s.drop_last().push(s.last()) =~= s);
        lemma_count_char_push(s.drop_last(), s.last(), c);
        lemma_count_trim_end(s.drop_last(), c);
    }
}

proof fn lemma_daily_total_insert(
    lines: Seq<Seq<char>>,
    i: int,
    line: Seq<char>,
    today: Seq<char>,
    a: Seq<char>,
)
    requires
        0 <= i <= lines.len(),
    ensures
        daily_total(lines.insert(i, line), today, a) == daily_total(lines, today, a)
            + daily_line_total(line, today, a),
    decreases lines.len(),
{
    let l2 = lines.insert(i, line);
    if i == lines.len() {
        assert(l2.drop_last() =~= lines);
        assert(l2.last() == line);
    } else {
        assert(l2.drop_last() =~= lines.drop_last().insert(i, line));
        assert(l2.last() == lines.last());
        lemma_daily_total_insert(lines.drop_last(), i, line, today, a);
    }
}

proof fn lemma_weekly_total_insert(
    lines: Seq<Seq<char>>,
    i: int,
    line: Seq<char>,
    wd: int,
    a: Seq<char>,
)
    requires
        0 <= i <= lines.len(),
    ensures
        weekly_total(lines.insert(i, line), wd, a) == weekly_total(lines, wd, a)
            + weekly_line_total(line, wd, a),
    decreases lines.len(),
{
    let l2 = lines.insert(i, line);
    if i == lines.len() {
        assert(l2.drop_last() =~= lines);
        assert(l2.last() == line);
    } else {
        assert(l2.drop_last() =~= lines.drop_last().insert(i, line));
        assert(l2.last() == lines.last());
        lemma_weekly_total_insert(lines.drop_last(), i, line, wd, a);
    }
}

proof fn lemma_monthly_total_insert(
    lines: Seq<Seq<char>>,
    i: int,
    line: Seq<char>,
    y: int,
    m: int,
    a: Seq<char>,
)
    requires
        0 <= i <= lines.len(),
    ensures
        monthly_total(lines.insert(i, line), y, m, a) == monthly_total(lines, y, m, a)
            + monthly_line_total(line, y, m, a),
    decreases lines.len(),
{
    let l2 = lines.insert(i, line);
    if i == lines.len() {
        assert(l2.drop_last() =~= lines);
        assert(l2.last() == line);
    } else {
        assert(l2.drop_last() =~= lines.drop_last().insert(i, line));
        assert(l2.last() == lines.last());
        lemma_monthly_total_insert(lines.drop_last(), i, line, y, m, a);
    }
}

proof fn lemma_bad_date_insert(lines: Seq<Seq<char>>, i: int, line: Seq<char>)
    requires
        0 <= i <= lines.len(),
    ensures
        has_bad_date(lines.insert(i, line)) == (has_bad_date(lines) || line_has_bad_date(line)),
{
    let l2 = lines.insert(i, line);
    if has_bad_date(l2) {
        let j = choose|j: int| 0 <= j < l2.len() && #[trigger] line_has_bad_date(l2[j]);
        if j < i {
            assert(line_has_bad_date(lines[j]));
        } else if j == i {
        } else {
            assert(l2[j] == lines[j - 1]);
            assert(line_has_bad_date(lines[j - 1]));
        }
    }
    if has_bad_date(lines) {
        let j = choose|j: int| 0 <= j < lines.len() && #[trigger] line_has_bad_date(lines[j]);
        if j < i {
            assert(l2[j] == lines[j]);
            assert(line_has_bad_date(l2[j]));
        } else {
            assert(l2[j + 1] == lines[j]);
            assert(line_has_bad_date(l2[j + 1]));
        }
    }
    if line_has_bad_date(line) {
        assert(l2[i] == line);
        assert(line_has_bad_date(l2[i]));
    }
}

/// A line without exactly three comma-separated fields — that is, without
/// exactly two commas — is excluded everywhere: inserted at any position it
/// changes no total of any of the three summaries, and it cannot make the
/// strict queries fail, since its date field is never examined.
pub proof fn lemma_malformed_line_excluded(lines: Seq<Seq<char>>, i: int, line: Seq<char>)
    requires
        0 <= i <= lines.len(),
        count_char(line, ',') != 2,
    ensures
        forall|today: Seq<char>, a: Seq<char>| #[trigger]
            daily_total(lines.insert(i, line), today, a) == daily_total(lines, today, a),
        forall|wd: int, a: Seq<char>| #[trigger]
            weekly_total(lines.insert(i, line), wd, a) == weekly_total(lines, wd, a),
        forall|y: int, m: int, a: Seq<char>| #[trigger]
            monthly_total(lines.insert(i, line), y, m, a) == monthly_total(lines, y, m, a),
        has_bad_date(lines.insert(i, line)) == has_bad_date(lines),
{
    lemma_count_trim(line, ',');
    lemma_split_at_least_one(line, ',');
    lemma_split_at_least_one(trim_chars(line), ',');
    assert(daily_fields(line).len() != 3);
    assert(scan_fields(line).len() != 3);
    assert forall|today: Seq<char>, a: Seq<char>| #[trigger]
        daily_total(lines.insert(i, line), today, a) == daily_total(lines, today, a) by {
        lemma_daily_total_insert(lines, i, line, today, a);
    }
    assert forall|wd: int, a: Seq<char>| #[trigger]
        weekly_total(lines.insert(i, line), wd, a) == weekly_total(lines, wd, a) by {
        lemma_weekly_total_insert(lines, i, line, wd, a);
    }
    assert forall|y: int, m: int, a: Seq<char>| #[trigger]
        monthly_total(lines.insert(i, line), y, m, a) == monthly_total(lines, y, m, a) by {
        lemma_monthly_total_insert(lines, i, line, y, m, a);
    }
    lemma_bad_date_insert(lines, i, line);
}

/// A three-field line whose duration field is not a valid non-negative
/// integer contributes zero, not an error: inserted at any position it leaves
/// every daily total unchanged.
pub proof fn lemma_unparsable_duration_daily(
    lines: Seq<Seq<char>>,
    i: int,
    line: Seq<char>,
)
    requires
        0 <= i <= lines.len(),
        !is_u64_chars(daily_fields(line)[2]),
    ensures
        forall|today: Seq<char>, a: Seq<char>| #[trigger]
            daily_total(lines.insert(i, line), today, a) == daily_total(lines, today, a),
{
    assert forall|today: Seq<char>, a: Seq<char>| #[trigger]
        daily_total(lines.insert(i, line), today, a) == daily_total(lines, today, a) by {
        lemma_daily_total_insert(lines, i, line, today, a);
        assert(daily_line_total(line, today, a) == 0);
    }
}

/// The same, for the strict queries: a three-field line with a valid date but
/// an unparsable duration adds zero to every weekday and every month, and
/// does not make the queries fail.
pub proof fn lemma_unparsable_duration_scan(lines: Seq<Seq<char>>, i: int, line: Seq<char>)
    requires
        0 <= i <= lines.len(),
        is_date_chars(scan_fields(line)[0]),
        !is_u64_chars(scan_fields(line)[2]),
    ensures
        forall|wd: int, a: Seq<char>| #[trigger]
            weekly_total(lines.insert(i, line), wd, a) == weekly_total(lines, wd, a),
        forall|y: int, m: int, a: Seq<char>| #[trigger]
            monthly_total(lines.insert(i, line), y, m, a) == monthly_total(lines, y, m, a),
        has_bad_date(lines.insert(i, line)) == has_bad_date(lines),
{
    assert forall|wd: int, a: Seq<char>| #[trigger]
        weekly_total(lines.insert(i, line), wd, a) == weekly_total(lines, wd, a) by {
        lemma_weekly_total_insert(lines, i, line, wd, a);
        assert(weekly_line_total(line, wd, a) == 0);
    }
    assert forall|y: int, m: int, a: Seq<char>| #[trigger]
        monthly_total(lines.insert(i, line), y, m, a) == monthly_total(lines, y, m, a) by {
        lemma_monthly_total_insert(lines, i, line, y, m, a);
        assert(monthly_line_total(line, y, m, a) == 0);
    }
    lemma_bad_date_insert(lines, i, line);
}

/// The monthly summary counts a record only when both the year and the month
/// of its date match: a line from any other month — for example the same
/// month exactly one year earlier — changes no monthly total.
pub proof fn lemma_other_month_excluded(
    lines: Seq<Seq<char>>,
    i: int,
    line: Seq<char>,
    y: int,
    m: int,
)
    requires
        0 <= i <= lines.len(),
        year_of_chars(scan_fields(line)[0]) != y || month_of_chars(scan_fields(line)[0]) != m,
    ensures
        forall|a: Seq<char>| #[trigger]
            monthly_total(lines.insert(i, line), y, m, a) == monthly_total(lines, y, m, a),
{
    assert forall|a: Seq<char>| #[trigger]
        monthly_total(lines.insert(i, line), y, m, a) == monthly_total(lines, y, m, a) by {
        lemma_monthly_total_insert(lines, i, line, y, m, a);
        assert(monthly_line_total(line, y, m, a) == 0);
    }
}

/// A record line reads back as its three fields: the date, the activity
/// verbatim, and the decimal duration.
proof fn lemma_record_line_fields(date: Date, activity: Seq<char>, duration: u64)
    requires
        date.valid(),
        count_char(activity, ',') == 0,
    ensures
        ({
            let recline = record_chars(date, activity, duration).drop_last();
            strip_cr(recline) == recline && split_chars(recline, ',') == seq![
                date_chars(date),
                activity,
                u64_chars(duration as nat),
            ]
        }),
{
    let dc = date_chars(date);
    let uc = u64_chars(duration as nat);
    let recline = record_chars(date, activity, duration).drop_last();
    assert(recline =~= dc + seq![','] + activity + seq![','] + uc);
    lemma_u64_chars_value(duration as nat);
    assert(uc.len() >= 1);
    assert(recline.last() == uc.last());
    assert(is_digit_char(uc.last()));
    assert(uc.last() != '\r');
    assert(strip_cr(recline) == recline);
    lemma_date_chars_plain(date);
    lemma_count_zero(dc, ',');
    lemma_count_zero(uc, ',');
    let tail = activity + seq![','] + uc;
    assert(recline =~= dc + seq![','] + tail);
    lemma_split_sep_concat(dc, tail, ',');
    lemma_split_sep_concat(activity, uc, ',');
    lemma_split_no_sep(uc, ',');
    assert(split_chars(tail, ',') == seq![activity] + split_chars(uc, ','));
    assert(split_chars(recline, ',') == seq![dc] + (seq![activity] + seq![uc]));
    assert(split_chars(recline, ',') =~~= seq![dc, activity, uc]);
}

/// Appending one record adds exactly its duration to the daily total of its
/// activity on its date, and changes the daily total of no other activity,
/// whatever the log already held. The activity must be free of commas and
/// newlines: the format has no escaping, and a comma or newline in the
/// activity corrupts the line. The log must be empty or end with a newline,
/// as every log the writer produced does.
pub proof fn lemma_append_updates_daily(
    content: Seq<char>,
    date: Date,
    activity: Seq<char>,
    duration: u64,
)
    requires
        date.valid(),
        count_char(activity, ',') == 0,
        count_char(activity, '\n') == 0,
        content.len() == 0 || content.last() == '\n',
    ensures
        forall|a: Seq<char>| #[trigger]
            daily_total(
                lines_of(content + record_chars(date, activity, duration)),
                date_chars(date),
                a,
            ) == daily_total(lines_of(content), date_chars(date), a) + (if a == activity {
                duration as nat
            } else {
                0nat
            }),
{
    let record = record_chars(date, activity, duration);
    let recline = record.drop_last();
    let dc = date_chars(date);
    let uc = u64_chars(duration as nat);
    assert(record.last() == '\n');
    assert(record =~= recline + seq!['\n']);
    lemma_date_chars_plain(date);
    lemma_count_zero(dc, '\n');
    lemma_u64_chars_value(duration as nat);
    assert(forall|k: int| 0 <= k < uc.len() ==> #[trigger] uc[k] != '\n');
    lemma_count_zero(uc, '\n');
    lemma_count_concat(dc + seq![','] + activity + seq![','], uc, '\n');
    lemma_count_concat(dc + seq![','] + activity, seq![','], '\n');
    lemma_count_concat(dc + seq![','], activity, '\n');
    lemma_count_concat(dc, seq![','], '\n');
    assert(count_char(seq![','], '\n') == 0) by {
        lemma_count_zero(seq![','], '\n');
    }
    assert(count_char(recline, '\n') == 0) by {
        assert(recline =~= dc + seq![','] + activity + seq![','] + uc);
    }
    // The lines of the grown log: the old lines, with the empty piece after
    // the final newline replaced by the new line and a new empty piece.
    assert(recline + seq!['\n'] + Seq::<char>::empty() =~= record);
    lemma_split_sep_concat(recline, Seq::<char>::empty(), '\n');
    assert(split_chars(record, '\n') == seq![recline] + split_chars(Seq::<char>::empty(), '\n'));
    assert(split_chars(record, '\n') =~~= seq![recline, Seq::<char>::empty()]);
    lemma_split_concat(content, record, '\n');
    let raw_old = split_chars(content, '\n');
    let raw_new = split_chars(content + record, '\n');
    lemma_split_at_least_one(content, '\n');
    assert(raw_old.last() == Seq::<char>::empty()) by {
        if content.len() == 0 {
            assert(raw_old =~~= seq![Seq::<char>::empty()]);
        } else {
            assert(content.drop_last() + seq!['\n'] + Seq::<char>::empty() =~= content);
            lemma_split_concat(content.drop_last(), seq!['\n'] + Seq::<char>::empty(), '\n');
            assert(Seq::<char>::empty() + seq!['\n'] + Seq::<char>::empty() =~= seq!['\n']);
            lemma_split_sep_concat(Seq::<char>::empty(), Seq::<char>::empty(), '\n');
            assert(split_chars(seq!['\n'], '\n') =~~= seq![
                Seq::<char>::empty(),
                Seq::<char>::empty(),
            ]);
            lemma_split_at_least_one(content.drop_last(), '\n');
            assert(raw_old.last() == Seq::<char>::empty());
        }
    }
    assert(raw_new == raw_old.drop_last() + seq![
        raw_old.last() + split_chars(record, '\n')[0],
    ] + split_chars(record, '\n').skip(1));
    assert(raw_old.last() + split_chars(record, '\n')[0] =~= recline);
    assert(split_chars(record, '\n').skip(1) =~~= seq![Seq::<char>::empty()]);
    assert(raw_new =~~= raw_old.drop_last().push(recline).push(Seq::<char>::empty()));
    lemma_record_line_fields(date, activity, duration);
    lemma_duration_round_trip(duration);
    // Reading those pieces as lines strips the carriage return everywhere but
    // in the final piece; the new line ends in a digit and the final piece is
    // empty, so neither is changed by the strip.
    let old_lines = lines_of(content);
    let new_lines = lines_of(content + record);
    assert(old_lines.last() == raw_old.last());
    assert(old_lines.last() == Seq::<char>::empty());
    assert(new_lines.len() == raw_old.len() + 1);
    assert(old_lines.len() == raw_old.len());
    assert forall|i: int| 0 <= i < new_lines.len() implies new_lines[i] == old_lines.drop_last(
    ).push(recline).push(Seq::<char>::empty())[i] by {
        if i < raw_old.len() - 1 {
            assert(raw_new[i] == raw_old[i]);
            assert(new_lines[i] == strip_cr(raw_old[i]));
            assert(old_lines[i] == strip_cr(raw_old[i]));
        } else if i == raw_old.len() - 1 {
            assert(raw_new[i] == recline);
            assert(new_lines[i] == strip_cr(recline));
            assert(strip_cr(recline) == recline);
        } else {
            assert(i == raw_new.len() - 1);
            assert(raw_new[i] == Seq::<char>::empty());
            assert(new_lines[i] == raw_new[i]);
        }
    }
    assert(new_lines =~~= old_lines.drop_last().push(recline).push(Seq::<char>::empty()));
    assert forall|a: Seq<char>| #[trigger]
        daily_total(new_lines, dc, a) == daily_total(old_lines, dc, a) + (if a == activity {
            duration as nat
        } else {
            0nat
        }) by {
        let base = old_lines.drop_last();
        let l1 = base.push(recline);
        let l2 = l1.push(Seq::<char>::empty());
        assert(new_lines == l2);
        assert(l2.drop_last() =~= l1);
        assert(l1.drop_last() =~= base);
        assert(l2.last() == Seq::<char>::empty());
        assert(l1.last() == recline);
        assert(daily_total(l2, dc, a) == daily_total(l1, dc, a) + daily_line_total(
            l2.last(),
            dc,
            a,
        ));
        assert(daily_total(l1, dc, a) == daily_total(base, dc, a) + daily_line_total(
            recline,
            dc,
            a,
        ));
        assert(daily_line_total(Seq::<char>::empty(), dc, a) == 0) by {
            lemma_split_no_sep(Seq::<char>::empty(), ',');
        }
        assert(daily_line_total(recline, dc, a) == (if a == activity {
            duration as nat
        } else {
            0nat
        })) by {
        assert(daily_fields(recline) == seq![dc, activity, uc]);
        }
        assert(old_lines =~= base.push(old_lines.last()));
        assert(daily_total(old_lines, dc, a) == daily_total(base, dc, a)) by {
            assert(old_lines.drop_last() =~= base);
            assert(daily_line_total(old_lines.last(), dc, a) == 0) by {
                lemma_split_no_sep(Seq::<char>::empty(), ',');
            }
        }
    }
}

/// The log that holds exactly the given appended records, in order: each one
/// a record for the same date and activity.
pub open spec fn appended_log(date: Date, activity: Seq<char>, durations: Seq<u64>) -> Seq<char>
    decreases durations.len(),
{
    if durations.len() == 0 {
        Seq::<char>::empty()
    } else {
        appended_log(date, activity, durations.drop_last()) + record_chars(
            date,
            activity,
            durations.last(),
        )
    }
}

pub open spec fn sum_durations(durations: Seq<u64>) -> nat
    decreases durations.len(),
{
    if durations.len() == 0 {
        0
    } else {
        sum_durations(durations.drop_last()) + durations.last() as nat
    }
}

proof fn lemma_appended_log_shape(date: Date, activity: Seq<char>, durations: Seq<u64>)
    ensures
        appended_log(date, activity, durations).len() == 0 || appended_log(
            date,
            activity,
            durations,
        ).last() == '\n',
    decreases durations.len(),
{
    if durations.len() > 0 {
        let rec = record_chars(date, activity, durations.last());
        assert(rec.last() == '\n');
        assert(appended_log(date, activity, durations).last() == rec.last());
    }
}

/// Any number of appends for one activity on one day, starting from an empty
/// log: the daily total for that activity is exactly the sum of the appended
/// durations, and every other activity's daily total is zero.
pub proof fn lemma_appends_sum_daily(date: Date, activity: Seq<char>, durations: Seq<u64>)
    requires
        date.valid(),
        count_char(activity, ',') == 0,
        count_char(activity, '\n') == 0,
    ensures
        daily_total(lines_of(appended_log(date, activity, durations)), date_chars(date), activity)
            == sum_durations(durations),
        forall|b: Seq<char>|
            b != activity ==> #[trigger] daily_total(
                lines_of(appended_log(date, activity, durations)),
                date_chars(date),
                b,
            ) == 0,
    decreases durations.len(),
{
    if durations.len() == 0 {
        let lines = lines_of(Seq::<char>::empty());
        assert(lines =~~= seq![Seq::<char>::empty()]);
        assert forall|b: Seq<char>| #[trigger]
            daily_total(lines, date_chars(date), b) == 0 by {
            assert(lines.drop_last() =~= Seq::<Seq<char>>::empty());
            assert(daily_total(Seq::<Seq<char>>::empty(), date_chars(date), b) == 0);
            lemma_split_no_sep(Seq::<char>::empty(), ',');
            assert(daily_line_total(lines.last(), date_chars(date), b) == 0);
            assert(daily_total(lines, date_chars(date), b) == daily_total(
                lines.drop_last(),
                date_chars(date),
                b,
            ) + daily_line_total(lines.last(), date_chars(date), b));
        }
    } else {
        lemma_appends_sum_daily(date, activity, durations.drop_last());
        lemma_appended_log_shape(date, activity, durations.drop_last());
        lemma_append_updates_daily(
            appended_log(date, activity, durations.drop_last()),
            date,
            activity,
            durations.last(),
        );
    }
}

/// One appended record, read back the same day from a previously empty log:
/// the daily total for its activity is exactly the appended duration.
pub proof fn lemma_append_then_read(date: Date, activity: Seq<char>, duration: u64)
    requires
        date.valid(),
        count_char(activity, ',') == 0,
        count_char(activity, '\n') == 0,
    ensures
        daily_total(
            lines_of(record_chars(date, activity, duration)),
            date_chars(date),
            activity,
        ) == duration,
{
    let durations = seq![duration];
    lemma_appends_sum_daily(date, activity, durations);
    assert(durations.drop_last() =~= Seq::<u64>::empty());
    assert(durations.last() == duration);
    assert(appended_log(date, activity, Seq::<u64>::empty()) == Seq::<char>::empty());
    assert(appended_log(date, activity, durations) == appended_log(
        date,
        activity,
        durations.drop_last(),
    ) + record_chars(date, activity, durations.last()));
    assert(appended_log(date, activity, durations) =~= record_chars(date, activity, duration));
    assert(sum_durations(Seq::<u64>::empty()) == 0);
    assert(sum_durations(durations) == duration);
}

} // verus!
