use vstd::prelude::*;
use vstd::string::StringExecFns;
use crate::entry::{Entry, FacetConfig, facet_label, facet_name};
use crate::text::{decimal, push_decimal};
use crate::view::DayGroup;
use crate::calendar::{first_moment, last_moment};

verus! {

/// The local date and time of a moment, as "YYYY-MM-DD HH:MM", for a local
/// time `offset` seconds ahead of UTC.
pub uninterp spec fn moment_label(time: int, offset: int) -> Seq<char>;

/// The local date of a moment, as "YYYY-MM-DD", for a local time `offset`
/// seconds ahead of UTC.
pub uninterp spec fn date_label(time: int, offset: int) -> Seq<char>;

/// A moment can be shown: the offset is less than a day either way, and the
/// moment lies in the calendar library's range.
pub open spec fn showable(time: i64, offset: i32) -> bool {
    -86400 < offset < 86400 && first_moment() <= time <= last_moment()
}

/// What stands for the moment `time`: its local date and time, or the
/// unknown mark when it cannot be shown.
pub open spec fn moment_shown(time: i64, offset: i32) -> Seq<char> {
    if showable(time, offset) { moment_label(time as int, offset as int) } else { unknown_label() }
}

/// What stands for the date of `time`: its local date, or the unknown mark
/// when it cannot be shown.
pub open spec fn date_shown(time: i64, offset: i32) -> Seq<char> {
    if showable(time, offset) { date_label(time as int, offset as int) } else { unknown_label() }
}

/// Relies on chrono's `FixedOffset::east_opt` (an offset under a day either
/// way), `DateTime::from_timestamp` (a moment in the library's range),
/// `with_timezone` and `format("%Y-%m-%d %H:%M")`: the local date and time
/// of a moment.
#[verifier::external_body]
fn moment_text(time: i64, offset: i32) -> (r: Option<String>)
    ensures
        r is Some <==> showable(time, offset),
        r matches Some(s) ==> s@ == moment_label(time as int, offset as int),
{
    let zone = chrono::FixedOffset::east_opt(offset)?;
    let utc = chrono::DateTime::from_timestamp(time, 0)?;
    Some(utc.with_timezone(&zone).format("%Y-%m-%d %H:%M").to_string())
}

/// Relies on chrono's `FixedOffset::east_opt` (an offset under a day either
/// way), `DateTime::from_timestamp` (a moment in the library's range),
/// `with_timezone` and `format("%Y-%m-%d")`: the local date of a moment.
#[verifier::external_body]
fn date_text(time: i64, offset: i32) -> (r: Option<String>)
    ensures
        r is Some <==> showable(time, offset),
        r matches Some(s) ==> s@ == date_label(time as int, offset as int),
{
    let zone = chrono::FixedOffset::east_opt(offset)?;
    let utc = chrono::DateTime::from_timestamp(time, 0)?;
    Some(utc.with_timezone(&zone).format("%Y-%m-%d").to_string())
}

/// What stands for a moment or a date that cannot be shown.
pub open spec fn unknown_label() -> Seq<char> {
    seq!['?']
}

/// A duration as whole minutes, followed by the remaining seconds when
/// there are any: "75m", "2m30s".
pub open spec fn duration_label(secs: nat) -> Seq<char> {
    decimal(secs / 60) + seq!['m'] + if secs % 60 != 0 { decimal(secs % 60) + seq!['s'] } else { Seq::empty() }
}

/// Two spaces, which separate the columns.
pub open spec fn gap() -> Seq<char> {
    seq![' ', ' ']
}

/// One line of a listing: when, facet and duration.
pub open spec fn row_label(when: Seq<char>, facet: Seq<char>, secs: nat) -> Seq<char> {
    when + gap() + facet + gap() + duration_label(secs) + seq!['\n']
}

/// The lines of `s`, one per entry: its moment, facet label and duration.
pub open spec fn rows_label(s: Seq<Entry>, names: Seq<Option<Seq<char>>>, offset: i32) -> Seq<char>
    decreases s.len(),
{
    if s.len() == 0 {
        Seq::empty()
    } else {
        rows_label(s.drop_last(), names, offset) + row_label(
            moment_shown(s.last().time, offset),
            facet_label(s.last().facet, names),
            s.last().duration as nat,
        )
    }
}

/// Appends the text of a duration to `s`.
pub fn push_duration(s: &mut String, secs: u64)
    ensures
        final(s)@ == old(s)@ + duration_label(secs as nat),
{
    push_decimal(s, secs / 60);
    proof {
        reveal_strlit("m");
        reveal_strlit("s");
    }
    s.append("m");
    if secs % 60 != 0 {
        push_decimal(s, secs % 60);
        s.append("s");
    }
    assert(s@ =~= old(s)@ + duration_label(secs as nat));
}

/// Appends one line of a listing to `s`, given the text of its moment.
pub fn push_row(s: &mut String, when: &str, facet: &str, secs: u64)
    ensures
        final(s)@ == old(s)@ + row_label(when@, facet@, secs as nat),
{
    proof {
        reveal_strlit("  ");
        reveal_strlit("\n");
    }
    s.append(when);
    s.append("  ");
    s.append(facet);
    s.append("  ");
    push_duration(s, secs);
    s.append("\n");
    assert(s@ =~= old(s)@ + row_label(when@, facet@, secs as nat));
}

/// Appends one line per entry to `s`: local date and time, facet label and
/// duration.
fn push_rows(s: &mut String, entries: &Vec<Entry>, config: &FacetConfig, offset: i32)
    ensures
        final(s)@ == old(s)@ + rows_label(entries@, config@, offset),
{
    let ghost start = s@;
    let mut i: usize = 0;
    while i < entries.len()
        invariant
            0 <= i <= entries.len(),
            s@ == start + rows_label(entries@.subrange(0, i as int), config@, offset),
        decreases entries.len() - i,
    {
        let e = entries[i];
        let label = facet_name(e.facet, config);
        let ghost part = entries@.subrange(0, i + 1);
        assert(part.drop_last() =~= entries@.subrange(0, i as int));
        assert(part.last() == e);
        match moment_text(e.time, offset) {
            Some(when) => {
                push_row(s, when.as_str(), label.as_str(), e.duration as u64);
            },
            None => {
                proof { reveal_strlit("?"); }
                push_row(s, "?", label.as_str(), e.duration as u64);
            },
        }
        i = i + 1;
    }
    assert(entries@.subrange(0, entries.len() as int) =~= entries@);
}

/// One line per entry, in the given order: local date and time, facet label
/// and duration.
pub fn render_lines(entries: &Vec<Entry>, config: &FacetConfig, offset: i32) -> (r: String)
    ensures
        r@ == rows_label(entries@, config@, offset),
{
    let mut s = String::new();
    push_rows(&mut s, entries, config, offset);
    assert(s@ =~= rows_label(entries@, config@, offset));
    s
}

/// The summary line of a facet: its label and its total.
pub open spec fn summary_line(facet: Seq<char>, secs: nat) -> Seq<char> {
    facet + gap() + duration_label(secs) + seq!['\n']
}

/// One summary line for each facet below `n` whose total is above zero, by
/// facet index.
pub open spec fn summary_label(totals: Seq<u64>, names: Seq<Option<Seq<char>>>, n: int) -> Seq<char>
    decreases n,
{
    if n <= 0 {
        Seq::empty()
    } else if totals[n - 1] > 0 {
        summary_label(totals, names, n - 1) + summary_line(facet_label((n - 1) as u8, names), totals[n - 1] as nat)
    } else {
        summary_label(totals, names, n - 1)
    }
}

/// The number of facet slots that a summary shows: all of `totals`, up to
/// one per facet index.
pub open spec fn shown_slots(totals: Seq<u64>) -> int {
    if totals.len() < 256 { totals.len() as int } else { 256 }
}

/// The per-facet totals as text: one line for each facet with a total above
/// zero, by facet index, with its label and its total.
pub fn render_summary(totals: &Vec<u64>, config: &FacetConfig) -> (r: String)
    ensures
        r@ == summary_label(totals@, config@, shown_slots(totals@)),
{
    let n: usize = if totals.len() < 256 { totals.len() } else { 256 };
    let mut s = String::new();
    let mut f: usize = 0;
    while f < n
        invariant
            0 <= f <= n <= 256,
            n <= totals.len(),
            s@ == summary_label(totals@, config@, f as int),
        decreases n - f,
    {
        if totals[f] > 0 {
            let ghost before = s@;
            proof {
                reveal_strlit("  ");
                reveal_strlit("\n");
            }
            let label = facet_name(f as u8, config);
            assert(label@ == facet_label(((f + 1) - 1) as u8, config@));
            s.append(label.as_str());
            s.append("  ");
            push_duration(&mut s, totals[f]);
            s.append("\n");
            assert(s@ =~= before + summary_line(label@, totals@[f as int] as nat));
        }
        f = f + 1;
    }
    s
}


/// The heading of a day: its date and the total of its durations.
pub open spec fn day_heading(date: Seq<char>, secs: nat) -> Seq<char> {
    date + gap() + duration_label(secs) + seq!['\n']
}

/// What stands for the date of a day: that of its first entry, or the
/// unknown mark.
pub open spec fn day_date(entries: Seq<Entry>, offset: i32) -> Seq<char> {
    if entries.len() > 0 { date_shown(entries[0].time, offset) } else { unknown_label() }
}

/// Each day under its heading (its date and total), followed by its lines.
pub open spec fn table_label(groups: Seq<DayGroup>, names: Seq<Option<Seq<char>>>, offset: i32) -> Seq<char>
    decreases groups.len(),
{
    if groups.len() == 0 {
        Seq::empty()
    } else {
        table_label(groups.drop_last(), names, offset)
            + day_heading(day_date(groups.last().entries@, offset), groups.last().total as nat)
            + rows_label(groups.last().entries@, names, offset)
    }
}

/// The days as text: each day's date and total on a heading line, followed
/// by one line per entry of that day.
pub fn render_table(groups: &Vec<DayGroup>, config: &FacetConfig, offset: i32) -> (r: String)
    ensures
        r@ == table_label(groups@, config@, offset),
{
    let mut s = String::new();
    let mut i: usize = 0;
    while i < groups.len()
        invariant
            0 <= i <= groups.len(),
            s@ == table_label(groups@.subrange(0, i as int), config@, offset),
        decreases groups.len() - i,
    {
        let g = &groups[i];
        let ghost part = groups@.subrange(0, i + 1);
        assert(part.drop_last() =~= groups@.subrange(0, i as int));
        assert(part.last() == *g);
        let ghost before = s@;
        proof {
            reveal_strlit("?");
            reveal_strlit("  ");
            reveal_strlit("\n");
        }
        let mut date: Option<String> = None;
        if g.entries.len() > 0 {
            date = date_text(g.entries[0].time, offset);
        }
        match date {
            Some(d) => {
                s.append(d.as_str());
            },
            None => {
                s.append("?");
            },
        }
        s.append("  ");
        push_duration(&mut s, g.total);
        s.append("\n");
        assert(s@ =~= before + day_heading(day_date(g.entries@, offset), g.total as nat));
        push_rows(&mut s, &g.entries, config, offset);
        i = i + 1;
    }
    assert(groups@.subrange(0, groups.len() as int) =~= groups@);
    s
}

} // verus!
