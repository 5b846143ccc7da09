//! Which stored runs the `stats` command shows, and how a run's start and
//! length are given.

use vstd::prelude::*;
use crate::clock::{push_char, utc_calendar_fields, utc_fields};

verus! {

/// The scenarios a dataset is built from.
#[derive(Debug)]
pub enum ScenarioSelection {
    /// The one scenario of this name.
    Named(String),
    /// All scenarios.
    All,
}

/// The runs of each scenario a dataset is built from.
#[derive(Clone, Copy, Debug, PartialEq, Eq, Structural)]
pub enum RunSelection {
    /// The last `n` runs.
    LastN(u64),
    /// All runs.
    All,
}

/// What the `stats` command asks of the database.
#[derive(Debug)]
pub struct DatasetQuery {
    pub scenarios: ScenarioSelection,
    pub runs: RunSelection,
}

/// The query for the `stats` command: the named scenario, or all of them;
/// the last `previous_runs` runs of each, or all of them.
pub fn dataset_query(scenario_name: Option<String>, previous_runs: Option<u64>) -> (q: DatasetQuery)
    ensures
        match scenario_name {
            Some(name) => q.scenarios == ScenarioSelection::Named(name),
            None => q.scenarios == ScenarioSelection::All,
        },
        match previous_runs {
            Some(n) => q.runs == RunSelection::LastN(n),
            None => q.runs == RunSelection::All,
        },
{
    let scenarios = match scenario_name {
        Some(name) => ScenarioSelection::Named(name),
        None => ScenarioSelection::All,
    };
    let runs = match previous_runs {
        Some(n) => RunSelection::LastN(n),
        None => RunSelection::All,
    };
    DatasetQuery { scenarios, runs }
}

/// The length of a run in milliseconds, from its start and stop time stamps.
pub fn run_duration_millis(start_time: i64, stop_time: i64) -> (d: i64)
    requires
        i64::MIN <= stop_time - start_time <= i64::MAX,
    ensures
        d == stop_time - start_time,
{
    stop_time - start_time
}

/// Whole seconds in `millis` milliseconds, rounded toward zero.
pub open spec fn millis_to_secs(millis: int) -> int {
    if millis >= 0 {
        millis / 1000
    } else {
        -((-millis) / 1000)
    }
}

/// The character of decimal digit `d`.
pub open spec fn digit_char(d: int) -> char {
    ('0' as int + d) as char
}

/// `v` (below 100) as two decimal digits, with a leading zero.
pub open spec fn two_digits(v: int) -> Seq<char> {
    seq![digit_char(v / 10), digit_char(v % 10)]
}

/// The year within its century, from 0 to 99.
pub open spec fn year_of_century(year: int) -> int {
    year % 100
}

/// Calendar fields written `dd/mm/yy HH:MM`.
pub open spec fn minute_label(f: (i32, u32, u32, u32, u32)) -> Seq<char> {
    two_digits(f.2 as int) + seq!['/'] + two_digits(f.1 as int) + seq!['/']
        + two_digits(year_of_century(f.0 as int)) + seq![' '] + two_digits(f.3 as int)
        + seq![':'] + two_digits(f.4 as int)
}

/// The layout of a minute label: for calendar fields in chrono's ranges, the
/// label has 14 characters; characters 0-1 are the day of the month in two
/// digits, 3-4 the month, 6-7 the year within its century, 9-10 the hour
/// (0 to 23), 12-13 the minute, with `/`, `/`, ` ` and `:` between them.
pub proof fn lemma_minute_label_layout(f: (i32, u32, u32, u32, u32))
    requires
        1 <= f.1 <= 12,
        1 <= f.2 <= 31,
        f.3 <= 23,
        f.4 <= 59,
    ensures
        minute_label(f).len() == 14,
        minute_label(f)[0] == (48 + f.2 / 10) as char,
        minute_label(f)[1] == (48 + f.2 % 10) as char,
        minute_label(f)[2] == '/',
        minute_label(f)[3] == (48 + f.1 / 10) as char,
        minute_label(f)[4] == (48 + f.1 % 10) as char,
        minute_label(f)[5] == '/',
        minute_label(f)[6] == (48 + (f.0 % 100) / 10) as char,
        minute_label(f)[7] == (48 + (f.0 % 100) % 10) as char,
        minute_label(f)[8] == ' ',
        minute_label(f)[9] == (48 + f.3 / 10) as char,
        minute_label(f)[10] == (48 + f.3 % 10) as char,
        minute_label(f)[11] == ':',
        minute_label(f)[12] == (48 + f.4 / 10) as char,
        minute_label(f)[13] == (48 + f.4 % 10) as char,
{
}

fn push_two_digits(s: &mut String, v: u32)
    requires
        v < 100,
    ensures
        final(s)@ == old(s)@ + two_digits(v as int),
{
    let tens: u8 = (v / 10) as u8;
    let ones: u8 = (v % 10) as u8;
    let t: char = (48u8 + tens) as char;
    let o: char = (48u8 + ones) as char;
    push_char(s, t);
    push_char(s, o);
    assert(s@ =~= old(s)@ + two_digits(v as int));
}

/// The start of a run, given in milliseconds since the UNIX epoch, as the
/// UTC minute `dd/mm/yy HH:MM`; `None` where chrono has no date for it.
pub fn run_start_label(start_time: i64) -> (label: Option<String>)
    ensures
        match utc_fields(millis_to_secs(start_time as int) as i64) {
            Some(f) => label matches Some(l) && l@ == minute_label(f),
            None => label is None,
        },
        match utc_fields(millis_to_secs(start_time as int) as i64) {
            Some(f) => label matches Some(l) && {
                &&& l@.len() == 14
                &&& l@[0] == (48 + f.2 / 10) as char && l@[1] == (48 + f.2 % 10) as char
                &&& l@[2] == '/'
                &&& l@[3] == (48 + f.1 / 10) as char && l@[4] == (48 + f.1 % 10) as char
                &&& l@[5] == '/'
                &&& l@[6] == (48 + (f.0 % 100) / 10) as char
                &&& l@[7] == (48 + (f.0 % 100) % 10) as char
                &&& l@[8] == ' '
                &&& l@[9] == (48 + f.3 / 10) as char && l@[10] == (48 + f.3 % 10) as char
                &&& l@[11] == ':'
                &&& l@[12] == (48 + f.4 / 10) as char && l@[13] == (48 + f.4 % 10) as char
            },
            None => true,
        },
        0 <= start_time <= 253_402_300_799_999 ==> label is Some,
{
    let secs: i64 = if start_time >= 0 {
        start_time / 1000
    } else {
        let magnitude: i64 = if start_time == i64::MIN { i64::MAX } else { -start_time };
        -(magnitude / 1000)
    };
    assert(secs == millis_to_secs(start_time as int));
    match utc_calendar_fields(secs) {
        None => None,
        Some(f) => {
            let (year, month, day, hour, minute) = f;
            let y: i64 = year as i64;
            let century_year: u32 = if y >= 0 {
                (y % 100) as u32
            } else {
                (99 - ((-y - 1) % 100)) as u32
            };
            assert(century_year == year_of_century(year as int));
            let mut s = String::new();
            push_two_digits(&mut s, day);
            push_char(&mut s, '/');
            push_two_digits(&mut s, month);
            push_char(&mut s, '/');
            push_two_digits(&mut s, century_year);
            push_char(&mut s, ' ');
            push_two_digits(&mut s, hour);
            push_char(&mut s, ':');
            push_two_digits(&mut s, minute);
            assert(s@ =~= minute_label(f));
            proof {
                lemma_minute_label_layout(f);
            }
            Some(s)
        },
    }
}

} // verus!
