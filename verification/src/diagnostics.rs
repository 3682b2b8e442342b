//! What is reported to the user after a conversion: the warnings, followed by
//! a count of them when there is more than one.
use vstd::prelude::*;
use vstd::string::*;

use crate::text::{decimal, decimal_chars, string_from_chars};

verus! {

/// The closing line after the warnings of a run, when there are at least two.
pub open spec fn summary_text(count: nat) -> Option<Seq<char>> {
    if count > 1 {
        Some(decimal(count) + " warnings emitted"@)
    } else {
        None
    }
}

/// The summary line for `count` warnings: `"N warnings emitted"` for two or
/// more, nothing for zero or one.
pub fn warning_summary(count: usize) -> (res: Option<String>)
    ensures
        match summary_text(count as nat) {
            Some(t) => res matches Some(s) && s@ == t,
            None => res is None,
        },
{
    if count > 1 {
        let digits = decimal_chars(count as u64);
        Some(string_from_chars(digits.as_slice()).concat(" warnings emitted"))
    } else {
        None
    }
}

/// The texts of a sequence of strings.
pub open spec fn string_texts(v: Seq<String>) -> Seq<Seq<char>> {
    v.map_values(|s: String| s@)
}

/// The messages reported for the warnings of a run, in order: each warning,
/// then the summary line when there is one.
pub open spec fn report_lines(warnings: Seq<Seq<char>>) -> Seq<Seq<char>> {
    match summary_text(warnings.len()) {
        Some(t) => warnings.push(t),
        None => warnings,
    }
}

/// The messages to report for `warnings`, in the order they are printed.
pub fn warning_messages(warnings: &[String]) -> (res: Vec<String>)
    ensures
        string_texts(res@) == report_lines(string_texts(warnings@)),
{
    let mut lines: Vec<String> = Vec::new();
    let mut i: usize = 0;
    while i < warnings.len()
        invariant
            i <= warnings@.len(),
            lines@.len() == i,
            string_texts(lines@) =~= string_texts(warnings@.take(i as int)),
        decreases warnings.len() - i,
    {
        let ghost before = lines@;
        lines.push(warnings[i].clone());
        assert(lines@ == before.push(warnings@[i as int]));
        assert(warnings@.take(i + 1) =~= warnings@.take(i as int).push(warnings@[i as int]));
        assert forall|k: int| 0 <= k < i + 1 implies #[trigger] string_texts(lines@)[k]
            == string_texts(warnings@.take(i + 1))[k] by {
            if k < i {
                assert(string_texts(before)[k] == string_texts(warnings@.take(i as int))[k]);
            }
        }
        i = i + 1;
        assert(string_texts(lines@) =~= string_texts(warnings@.take(i as int)));
    }
    assert(warnings@.take(i as int) =~= warnings@);
    match warning_summary(warnings.len()) {
        Some(summary) => {
            let ghost before = lines@;
            lines.push(summary);
            assert(string_texts(lines@) =~= string_texts(before).push(summary@));
        },
        None => {},
    }
    lines
}


/// The messages to report after a run: none when `quiet` asks to keep
/// warnings out, else the warnings and their summary.
pub open spec fn reported(warnings: Seq<Seq<char>>, quiet: bool) -> Seq<Seq<char>> {
    if quiet {
        seq![]
    } else {
        report_lines(warnings)
    }
}

/// The messages to print for the warnings of a run, given whether the user
/// asked for quiet output.
pub fn messages_to_report(warnings: &[String], quiet: bool) -> (res: Vec<String>)
    ensures
        string_texts(res@) == reported(string_texts(warnings@), quiet),
{
    if quiet {
        let none: Vec<String> = Vec::new();
        assert(string_texts(none@) =~= seq![]);
        none
    } else {
        warning_messages(warnings)
    }
}

/// Every warning is reported, in order, and a summary line follows exactly
/// when there are at least two of them.
pub proof fn law_summary_follows_several_warnings(warnings: Seq<Seq<char>>)
    ensures
        report_lines(warnings).take(warnings.len() as int) == warnings,
        report_lines(warnings).len() == warnings.len() + (if warnings.len() > 1 {
            1int
        } else {
            0int
        }),
        warnings.len() > 1 ==> report_lines(warnings).last() == decimal(warnings.len())
            + " warnings emitted"@,
{
    assert(report_lines(warnings).take(warnings.len() as int) =~= warnings);
}

/// Quiet output reports nothing.
pub proof fn law_quiet_reports_nothing(warnings: Seq<Seq<char>>)
    ensures
        reported(warnings, true).len() == 0,
{
}

} // verus!
