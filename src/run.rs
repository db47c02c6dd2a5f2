//! The decisions of one run: which mode to run in and where to send the report.
use vstd::prelude::*;

verus! {

/// What a run does.
#[derive(Debug, Clone, Copy, PartialEq, Eq, Structural)]
pub enum RunMode {
    /// Rewrite the baseline and stop.
    UpdateOnly,
    /// Record a first baseline, then check against it.
    UpdateThenCheck,
    /// Check the tree against the existing baseline.
    CheckOnly,
}

/// Where a report of changes goes.
#[derive(Debug, Clone, Copy, PartialEq, Eq, Structural)]
pub enum Channel {
    Slack,
    Smtp,
    Unknown,
}

/// An explicit request rewrites the baseline and ends the run; a missing
/// baseline is recorded first and then checked; otherwise the run checks.
pub fn run_mode(baseline_exists: bool, update_requested: bool) -> (r: RunMode)
    ensures
        update_requested ==> r == RunMode::UpdateOnly,
        !update_requested && !baseline_exists ==> r == RunMode::UpdateThenCheck,
        !update_requested && baseline_exists ==> r == RunMode::CheckOnly,
{
    if update_requested {
        RunMode::UpdateOnly
    } else if !baseline_exists {
        RunMode::UpdateThenCheck
    } else {
        RunMode::CheckOnly
    }
}

/// The channel that a configured name selects: `slack` or `smtp`.
pub fn channel_of(send_via: &str) -> (r: Channel)
    ensures
        send_via@ == "slack"@ ==> r == Channel::Slack,
        send_via@ == "smtp"@ ==> r == Channel::Smtp,
        send_via@ != "slack"@ && send_via@ != "smtp"@ ==> r == Channel::Unknown,
{
    let given = String::from_str(send_via);
    let slack = String::from_str("slack");
    let smtp = String::from_str("smtp");
    proof {
        reveal_strlit("slack");
        reveal_strlit("smtp");
        assert("slack"@[1] != "smtp"@[1]);
    }
    if given == slack {
        Channel::Slack
    } else if given == smtp {
        Channel::Smtp
    } else {
        Channel::Unknown
    }
}

/// A report is sent only when some path changed.
pub fn has_changes(modified: &[String], new_files: &[String], deleted: &[String]) -> (r: bool)
    ensures
        r == (modified@.len() > 0 || new_files@.len() > 0 || deleted@.len() > 0),
{
    modified.len() > 0 || new_files.len() > 0 || deleted.len() > 0
}

} // verus!
