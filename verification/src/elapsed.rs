//! Elapsed time in words, for the report at the end of a run.

use crate::decimal::{decimal, decimal_text};
use std::time::Duration;
use vstd::prelude::*;
use vstd::string::StringExecFns;

verus! {

/// The whole seconds that a duration holds.
pub uninterp spec fn whole_seconds(duration: Duration) -> u64;

/// `Duration::as_secs`: the number of whole seconds of the duration.
pub assume_specification[ Duration::as_secs ](duration: &Duration) -> (seconds: u64)
    ensures
        seconds == whole_seconds(*duration),
;

/// A number of seconds in words: the minutes, if there is at least one, and the seconds
/// that are left over.
pub open spec fn elapsed_text(seconds: nat) -> Seq<char> {
    if seconds / 60 > 0 {
        decimal(seconds / 60) + " minutes "@ + decimal(seconds % 60) + " seconds"@
    } else {
        decimal(seconds % 60) + " seconds"@
    }
}

/// Writes a number of seconds in words, as `2 minutes 5 seconds` or as `42 seconds`.
pub fn format_seconds(seconds: u64) -> (text: String)
    ensures
        text@ == elapsed_text(seconds as nat),
{
    let minutes = seconds / 60;
    let rest = seconds % 60;
    if minutes > 0 {
        let mut text = decimal_text(minutes);
        text.append(" minutes ");
        text.append(decimal_text(rest).as_str());
        text.append(" seconds");
        text
    } else {
        let mut text = decimal_text(rest);
        text.append(" seconds");
        text
    }
}

/// Writes the whole seconds of `elapsed_time` in words.
pub fn format_elapsed_time(elapsed_time: Duration) -> (text: String)
    ensures
        text@ == elapsed_text(whole_seconds(elapsed_time) as nat),
{
    format_seconds(elapsed_time.as_secs())
}

} // verus!
