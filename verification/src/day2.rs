//! Reports of levels: a report is safe when its levels only rise or only
//! fall, by one to three from each level to the next.
use crate::scan::{fields, lines, parse_i64, signed_of, split_fields, split_lines, views};
use vstd::prelude::*;
use vstd::string::StringSliceAdditionalSpecFns;

verus! {

/// One level of a report.
pub type Level = i64;

/// A report: its levels in order.
pub type Report = Vec<Level>;

/// The step from level `i` of `report` to the next.
pub open spec fn gap(report: Seq<Level>, i: int) -> int {
    report[i + 1] - report[i]
}

/// Whether every step of `report` goes up.
pub open spec fn increasing(report: Seq<Level>) -> bool {
    forall|i: int| 0 <= i < report.len() - 1 ==> #[trigger] gap(report, i) > 0
}

/// Whether every step of `report` goes down.
pub open spec fn decreasing(report: Seq<Level>) -> bool {
    forall|i: int| 0 <= i < report.len() - 1 ==> #[trigger] gap(report, i) < 0
}

/// Whether every step of `report` is at least one and at most three wide.
pub open spec fn gentle(report: Seq<Level>) -> bool {
    forall|i: int|
        0 <= i < report.len() - 1 ==> 1 <= #[trigger] gap(report, i) <= 3 || -3 <= gap(report, i)
            <= -1
}

/// Whether `report` is safe.
pub open spec fn safe(report: Seq<Level>) -> bool {
    (increasing(report) || decreasing(report)) && gentle(report)
}

/// Whether `report` is safe, or becomes safe when one level is taken out.
pub open spec fn safe_with_dampener(report: Seq<Level>) -> bool {
    safe(report) || exists|i: int| 0 <= i < report.len() && safe(#[trigger] report.remove(i))
}

/// Whether `text` writes the levels `report`: its fields are numbers that
/// fit, and `report` holds them in order.
pub open spec fn report_of(text: Seq<u8>, report: Seq<Level>) -> bool {
    &&& report.len() == fields(text).len()
    &&& forall|i: int| 0 <= i < report.len() ==> signed_of(fields(text)[i]) == Some(#[trigger] report[i] as int)
}

/// Whether some report is written in `text`.
pub open spec fn is_report(text: Seq<u8>) -> bool {
    forall|i: int|
        0 <= i < fields(text).len() ==> {
            let value = signed_of(#[trigger] fields(text)[i]);
            value.is_some() && i64::MIN <= value.unwrap() <= i64::MAX
        }
}

/// Reads the levels of one report from a line. The result is `None` when a
/// field of the line is no number, or a number that does not fit.
pub fn parse_report(line: &[u8]) -> (parsed: Option<Report>)
    ensures
        match parsed {
            Some(report) => report_of(line@, report@),
            None => !is_report(line@),
        },
{
    let words = split_fields(line);
    let mut report: Report = Vec::new();
    let mut i: usize = 0;
    while i < words.len()
        invariant
            views(words@) == fields(line@),
            i <= words@.len(),
            report@.len() == i,
            forall|j: int|
                0 <= j < i ==> signed_of(fields(line@)[j]) == Some(#[trigger] report@[j] as int),
        decreases words@.len() - i,
    {
        proof {
            assert(views(words@)[i as int] == words@[i as int]@);
        }
        match parse_i64(words[i].as_slice()) {
            Some(level) => {
                report.push(level);
            },
            None => {
                proof {
                    let value = signed_of(fields(line@)[i as int]);
                    assert(!(value.is_some() && i64::MIN <= value.unwrap() <= i64::MAX));
                }
                return None;
            },
        }
        i += 1;
    }
    proof {
        assert(views(words@).len() == words@.len());
    }
    Some(report)
}

/// Reads one report from each line of `input`. The result is `None` when
/// some line holds no report.
pub fn parse_input(input: &str) -> (parsed: Option<Vec<Report>>)
    ensures
        match parsed {
            Some(reports) => {
                &&& reports@.len() == lines(input.spec_bytes()).len()
                &&& forall|i: int|
                    0 <= i < reports@.len() ==> report_of(
                        lines(input.spec_bytes())[i],
                        (#[trigger] reports@[i])@,
                    )
            },
            None => exists|i: int|
                0 <= i < lines(input.spec_bytes()).len() && !is_report(
                    #[trigger] lines(input.spec_bytes())[i],
                ),
        },
{
    let ghost text = input.spec_bytes();
    let rows = split_lines(input.as_bytes());
    let mut reports: Vec<Report> = Vec::new();
    let mut i: usize = 0;
    while i < rows.len()
        invariant
            text == input.spec_bytes(),
            views(rows@) == lines(text),
            i <= rows@.len(),
            reports@.len() == i,
            forall|j: int| 0 <= j < i ==> report_of(lines(text)[j], (#[trigger] reports@[j])@),
        decreases rows@.len() - i,
    {
        proof {
            assert(views(rows@)[i as int] == rows@[i as int]@);
        }
        match parse_report(rows[i].as_slice()) {
            Some(report) => {
                reports.push(report);
            },
            None => {
                proof {
                    assert(views(rows@).len() == rows@.len());
                    assert(0 <= i < lines(text).len() && !is_report(lines(text)[i as int]));
                }
                return None;
            },
        }
        i += 1;
    }
    proof {
        assert(views(rows@).len() == rows@.len());
    }
    Some(reports)
}

/// Whether the levels of the report all rise or all fall, each by at least
/// one and at most three.
pub fn is_report_safe(report: &Report) -> (is_safe: bool)
    ensures
        is_safe == safe(report@),
{
    // All increasing OR all decreasing (no consecutive numbers can be the same)
    // Gap between 1 and 3 (inclusive)
    let mut increasing_so_far = true;
    let mut decreasing_so_far = true;
    let mut size_ok = true;
    let mut i: usize = 0;
    if report.len() < 2 {
        return true;
    }
    while i < report.len() - 1
        invariant
            report@.len() >= 2,
            i <= report@.len() - 1,
            increasing_so_far == increasing(report@.take(i + 1)),
            decreasing_so_far == decreasing(report@.take(i + 1)),
            size_ok == gentle(report@.take(i + 1)),
        decreases report@.len() - 1 - i,
    {
        // Find the gap between two levels
        let step = report[i + 1] as i128 - report[i] as i128;
        let ghost seen = report@.take(i + 1);
        let ghost next = report@.take(i + 2);
        proof {
            assert(gap(next, i as int) == step);
            assert forall|j: int| 0 <= j < i implies gap(next, j) == gap(seen, j) by {}
            if increasing(next) {
                assert forall|j: int| 0 <= j < seen.len() - 1 implies #[trigger] gap(seen, j)
                    > 0 by {
                    assert(gap(next, j) > 0);
                }
            }
            if decreasing(next) {
                assert forall|j: int| 0 <= j < seen.len() - 1 implies #[trigger] gap(seen, j)
                    < 0 by {
                    assert(gap(next, j) < 0);
                }
            }
            if gentle(next) {
                assert forall|j: int| 0 <= j < seen.len() - 1 implies 1 <= #[trigger] gap(seen, j)
                    <= 3 || -3 <= gap(seen, j) <= -1 by {
                    assert(1 <= gap(next, j) <= 3 || -3 <= gap(next, j) <= -1);
                }
            }
        }
        increasing_so_far = increasing_so_far && step > 0;
        decreasing_so_far = decreasing_so_far && step < 0;
        size_ok = size_ok && ((1 <= step && step <= 3) || (-3 <= step && step <= -1));
        i += 1;
    }
    proof {
        assert(report@.take(report@.len() as int) == report@);
    }
    (increasing_so_far || decreasing_so_far) && size_ok
}

/// Dampen item i of the report.
pub fn dampen(report: &Report, i: usize) -> (dampened: Report)
    requires
        i < report@.len(),
    ensures
        dampened@ == report@.remove(i as int),
{
    let mut dampened: Report = Vec::with_capacity(report.len() - 1);
    let mut j: usize = 0;
    while j < report.len()
        invariant
            i < report@.len(),
            j <= report@.len(),
            dampened@.len() == (if j <= i {
                j as int
            } else {
                j - 1
            }),
            forall|k: int| 0 <= k < dampened@.len() ==> dampened@[k] == report@.remove(i as int)[k],
        decreases report@.len() - j,
    {
        if j != i {
            dampened.push(report[j]);
        }
        j += 1;
    }
    proof {
        assert(dampened@ =~= report@.remove(i as int));
    }
    dampened
}

/// Whether the report is safe as it is or after one of its levels has been
/// taken out.
pub fn is_report_safe_with_dampener(report: &Report) -> (is_safe: bool)
    ensures
        is_safe == safe_with_dampener(report@),
{
    if is_report_safe(report) {
        return true;
    }
    // Dampen by removing one item.
    let mut i: usize = 0;
    while i < report.len()
        invariant
            i <= report@.len(),
            !safe(report@),
            forall|j: int| 0 <= j < i ==> !safe(#[trigger] report@.remove(j)),
        decreases report@.len() - i,
    {
        if is_report_safe(&dampen(report, i)) {
            return true;
        }
        i += 1;
    }
    false
}

/// The number of safe reports.
pub fn q1(reports: &Vec<Report>) -> (count: usize)
    ensures
        count == safe_count(reports@, reports@.len() as int, false),
{
    let mut count: usize = 0;
    let mut i: usize = 0;
    while i < reports.len()
        invariant
            i <= reports@.len(),
            count == safe_count(reports@, i as int, false),
            count <= i,
        decreases reports@.len() - i,
    {
        if is_report_safe(&reports[i]) {
            count += 1;
        }
        i += 1;
    }
    count
}

/// The number of reports that are safe, or become safe when one level is
/// taken out.
pub fn q2(reports: &Vec<Report>) -> (count: usize)
    ensures
        count == safe_count(reports@, reports@.len() as int, true),
{
    let mut count: usize = 0;
    let mut i: usize = 0;
    while i < reports.len()
        invariant
            i <= reports@.len(),
            count == safe_count(reports@, i as int, true),
            count <= i,
        decreases reports@.len() - i,
    {
        if is_report_safe_with_dampener(&reports[i]) {
            count += 1;
        }
        i += 1;
    }
    count
}

/// How many of the first `n` reports are safe, with the dampener or without.
pub open spec fn safe_count(reports: Seq<Report>, n: int, dampener: bool) -> nat
    decreases n,
{
    if n <= 0 {
        0
    } else {
        let last = reports[n - 1]@;
        let counts = if dampener {
            safe_with_dampener(last)
        } else {
            safe(last)
        };
        safe_count(reports, n - 1, dampener) + if counts {
            1nat
        } else {
            0nat
        }
    }
}

} // verus!
