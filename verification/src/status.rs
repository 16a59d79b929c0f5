//! How a run ends: exit statuses, and what a failure says.

use vstd::prelude::*;
use vstd::string::StringExecFns;

use crate::bytes::{decimal_chars, decimal_text};
use crate::hashing::{format_hash, hash_name, HASH_CHARS};

verus! {

/// Process exit status, on `grep`'s model.
#[derive(Clone, Copy, PartialEq, Eq, Structural, Debug)]
pub enum Status {
    /// Ran, and produced a result.
    Success,
    /// Ran, but found nothing.
    NoResult,
    /// Did not run to completion.
    Error,
}

/// What a refused precondition reports, distinct from [`Status::NoResult`] and
/// [`Status::Error`]. A caller reads it as "look again", not as "fix your arguments".
pub const REFUSED_EXIT_CODE: u8 = 3;

/// The status a finished run reports: an input that could not be read means the run did not
/// complete, whatever its readable siblings produced.
pub open spec fn status_of(any_input_failed: bool, produced: bool) -> Status {
    if any_input_failed {
        Status::Error
    } else if produced {
        Status::Success
    } else {
        Status::NoResult
    }
}

impl Status {
    /// The number the process exits with.
    pub open spec fn number(self) -> u8 {
        match self {
            Status::Success => 0,
            Status::NoResult => 1,
            Status::Error => 2,
        }
    }

    /// The status a finished run reports.
    pub fn of(any_input_failed: bool, produced: bool) -> (status: Self)
        ensures
            status == status_of(any_input_failed, produced),
    {
        if any_input_failed {
            Status::Error
        } else {
            Status::from_found(produced)
        }
    }

    /// Map a "found something" flag to the success/no-result pair.
    pub fn from_found(found: bool) -> (status: Self)
        ensures
            status == status_of(false, found),
    {
        if found {
            Status::Success
        } else {
            Status::NoResult
        }
    }

    /// The number the process exits with.
    pub fn code(self) -> (code: u8)
        ensures
            code == self.number(),
    {
        match self {
            Status::Success => 0,
            Status::NoResult => 1,
            Status::Error => 2,
        }
    }
}

/// What a run has seen, folded as it goes, so no caller counts on the side.
///
/// A failure is anything that stopped an input being read or written; `produced` is whatever that
/// tool calls a result. The pair answers the exit code.
#[derive(Clone, Copy, Debug)]
pub struct Tally {
    failures: usize,
    produced: bool,
}

impl Default for Tally {
    fn default() -> (tally: Self)
        ensures
            tally.failure_count() == 0,
            !tally.has_produced(),
    {
        Tally { failures: 0, produced: false }
    }
}

impl Tally {
    pub closed spec fn failure_count(&self) -> nat {
        self.failures as nat
    }

    pub closed spec fn has_produced(&self) -> bool {
        self.produced
    }

    /// Record an input that could not be read.
    pub fn failed(&mut self)
        requires
            old(self).failure_count() < usize::MAX,
        ensures
            final(self).failure_count() == old(self).failure_count() + 1,
            final(self).has_produced() == old(self).has_produced(),
    {
        self.failures = self.failures + 1;
    }

    /// Record that the run produced something.
    pub fn produced(&mut self)
        ensures
            final(self).failure_count() == old(self).failure_count(),
            final(self).has_produced(),
    {
        self.produced = true;
    }

    /// How many inputs failed, which some tools also report in prose.
    pub fn failures(&self) -> (failures: usize)
        ensures
            failures == self.failure_count(),
    {
        self.failures
    }

    /// The exit status this run has earned.
    pub fn status(self) -> (status: Status)
        ensures
            status == status_of(self.failure_count() > 0, self.has_produced()),
    {
        Status::of(self.failures > 0, self.produced)
    }
}

/// A failed input outranks whatever the readable ones produced.
pub proof fn a_failure_outranks_a_result(produced: bool)
    ensures
        status_of(true, produced) == Status::Error,
        status_of(false, true) != status_of(true, produced),
        status_of(false, false) != status_of(true, produced),
{
}

/// Anything that ends a run early.
///
/// An I/O failure carries the text of its cause and whether that cause was a closed downstream,
/// which is recognised in one place instead of at every write site.
#[derive(Debug)]
pub enum Failure {
    /// An I/O failure, naming the path it happened to.
    Io { path: String, cause: String, broken_pipe: bool },
    /// A usage error, as it is shown.
    Usage { message: String },
    /// A precondition naming a file's contents that no longer holds: the file changed between the
    /// read that produced the caller's hash and this run.
    Stale { path: String, expected: u64, actual: u64 },
    /// A name that had to pick out one thing and picked out several. Reported rather than
    /// resolved, because choosing among candidates is what the caller came to decide.
    Ambiguous { path: String, subject: String, matches: usize, note: &'static str },
    /// A name or a pattern that picked out nothing. Which recovery applies depends on what was
    /// looked for, so the caller supplies it in `note`.
    Unresolved { path: String, subject: String, note: &'static str },
}

impl Failure {
    /// What the failure says.
    pub open spec fn text(&self) -> Seq<char> {
        match self {
            Failure::Io { path, cause, broken_pipe } => path@ + ": "@ + cause@,
            Failure::Usage { message } => message@,
            Failure::Stale { path, expected, actual } => path@ + ": content is "@ + hash_name(
                *actual,
                13,
            ) + ", not the expected "@ + hash_name(*expected, 13) + "; re-read it before editing"@,
            Failure::Ambiguous { path, subject, matches, note } => path@ + ": `"@ + subject@
                + "` matches "@ + decimal_chars(*matches as nat) + " places, not one; "@ + note@,
            Failure::Unresolved { path, subject, note } => path@ + ": `"@ + subject@ + "` "@
                + note@,
        }
    }

    /// What the failure says.
    pub fn message(&self) -> (text: String)
        ensures
            text@ == self.text(),
    {
        match self {
            Failure::Io { path, cause, broken_pipe } => {
                let mut text = path.clone();
                text.append(": ");
                text.append(cause.as_str());
                text
            },
            Failure::Usage { message } => message.clone(),
            // Both hashes are printed because the recovery is to compare them against what the
            // caller still holds, and neither alone says which read went out of date.
            Failure::Stale { path, expected, actual } => {
                let mut text = path.clone();
                text.append(": content is ");
                text.append(format_hash(*actual, HASH_CHARS).as_str());
                text.append(", not the expected ");
                text.append(format_hash(*expected, HASH_CHARS).as_str());
                text.append("; re-read it before editing");
                text
            },
            Failure::Ambiguous { path, subject, matches, note } => {
                let mut text = path.clone();
                text.append(": `");
                text.append(subject.as_str());
                text.append("` matches ");
                text.append(decimal_text(*matches as u64).as_str());
                text.append(" places, not one; ");
                text.append(note);
                text
            },
            Failure::Unresolved { path, subject, note } => {
                let mut text = path.clone();
                text.append(": `");
                text.append(subject.as_str());
                text.append("` ");
                text.append(note);
                text
            },
        }
    }
}

/// What the process does about a finished run: the code it exits with, and whether it writes the
/// failure's text to its diagnostics first.
#[derive(Clone, Copy, PartialEq, Eq, Structural, Debug)]
pub struct Report {
    pub code: u8,
    pub noted: bool,
}

/// What a finished run earns. A downstream that closed early is a normal end, not a failure; a
/// refused precondition ran correctly and declined; a usage error carries the code its renderer
/// gave it, and prints itself.
pub open spec fn report_of(outcome: Result<Status, Failure>, usage_code: u8) -> Report {
    match outcome {
        Ok(status) => Report { code: status.number(), noted: false },
        Err(Failure::Io { path, cause, broken_pipe }) => if broken_pipe {
            Report { code: 0, noted: false }
        } else {
            Report { code: 2, noted: true }
        },
        Err(Failure::Usage { message }) => Report { code: usage_code, noted: false },
        Err(_) => Report { code: 3, noted: true },
    }
}

/// Turn a finished run into what the process does about it. The one place that decides what a
/// closed downstream means, and the only place that knows the mapping to a number.
pub fn report(outcome: &Result<Status, Failure>, usage_code: u8) -> (done: Report)
    ensures
        done == report_of(*outcome, usage_code),
{
    match outcome {
        Ok(status) => Report { code: status.code(), noted: false },
        Err(Failure::Io { path, cause, broken_pipe }) => {
            if *broken_pipe {
                Report { code: 0, noted: false }
            } else {
                Report { code: Status::Error.code(), noted: true }
            }
        },
        Err(Failure::Usage { message }) => Report { code: usage_code, noted: false },
        Err(Failure::Stale { path, expected, actual }) => Report {
            code: REFUSED_EXIT_CODE,
            noted: true,
        },
        Err(Failure::Ambiguous { path, subject, matches, note }) => Report {
            code: REFUSED_EXIT_CODE,
            noted: true,
        },
        Err(Failure::Unresolved { path, subject, note }) => Report {
            code: REFUSED_EXIT_CODE,
            noted: true,
        },
    }
}

/// A run exits with 0 where it produced something, with 1 where there was nothing, with 2 where an
/// input failed or nothing could be read or written, and with 3 where it declined. A downstream that
/// closed early is no failure and is not spoken of.
pub proof fn an_exit_tells_how_a_run_went(failed: bool, produced: bool, failure: Failure, usage: u8)
    ensures
        !failed && produced ==> report_of(Ok(status_of(failed, produced)), usage).code == 0,
        !failed && !produced ==> report_of(Ok(status_of(failed, produced)), usage).code == 1,
        failed ==> report_of(Ok(status_of(failed, produced)), usage).code == 2,
        !report_of(Ok(status_of(failed, produced)), usage).noted,
        failure is Io ==> report_of(Err(failure), usage).code == if failure->broken_pipe {
            0int
        } else {
            2
        },
        failure is Io ==> report_of(Err(failure), usage).noted == !failure->broken_pipe,
        failure is Usage ==> report_of(Err(failure), usage).code == usage && !report_of(
            Err(failure),
            usage,
        ).noted,
        failure is Stale || failure is Ambiguous || failure is Unresolved ==> report_of(
            Err(failure),
            usage,
        ).code == 3 && report_of(Err(failure), usage).noted,
{
}

} // verus!
