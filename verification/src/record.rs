//! The write path: one appended record is the line
//! `date,activity,duration\n`, with the activity inserted verbatim. The
//! format has no escaping, so an activity containing a comma or a newline
//! corrupts the line for every reader — a known limitation of the format.

use vstd::prelude::*;
use vstd::string::StringExecFns;

use crate::date::Date;
use crate::date::date_chars;
use crate::date::format_date;
use crate::numbers::u64_chars;
use crate::numbers::u64_string;

verus! {

/// The characters one append writes: the formatted date, the activity
/// verbatim and the duration in decimal, comma-separated and ended by a
/// newline.
pub open spec fn record_chars(date: Date, activity: Seq<char>, duration: u64) -> Seq<char> {
    date_chars(date) + seq![','] + activity + seq![','] + u64_chars(duration as nat) + seq!['\n']
}

/// Build the line one append writes to the log file.
pub fn format_record(date: &Date, activity: &str, duration: u64) -> (r: String)
    requires
        date.valid(),
    ensures
        r@ == record_chars(*date, activity@, duration),
{
    let mut out = format_date(date);
    out.append(",");
    out.append(activity);
    out.append(",");
    let dur = u64_string(duration);
    out.append(dur.as_str());
    out.append("\n");
    proof {
        reveal_strlit(",");
        reveal_strlit("\n");
        assert(out@ =~= record_chars(*date, activity@, duration));
    }
    out
}

} // verus!
