//! The failures that end a run.

use vstd::prelude::*;
use vstd::string::StringExecFns;
use crate::text::{decimal_string, decimal_text, signed_decimal_string, signed_decimal_text, text_of};

verus! {

/// Why the repository could not be used.
#[derive(Clone, Copy, Debug, PartialEq, Eq, Structural)]
pub enum RepositoryFault {
    /// The path does not exist.
    Missing,
    /// The path holds a bare repository, without a working tree.
    Bare,
    /// The path has repository metadata that cannot be opened.
    Corrupted,
    /// The path holds no repository.
    NotARepository,
}

/// Why the history could not be indexed.
#[derive(Clone, Copy, Debug, PartialEq, Eq, Structural)]
pub enum HistoryFault {
    /// The traversal gave no revision.
    NoRevisions,
    /// The record at this position of the traversal, counted from 0, is not a
    /// timestamp followed by a revision id.
    MalformedRecord { position: usize },
    /// The traversal gave a revision more than once.
    RepeatedRevision,
    /// The traversal broke off, or could not start from the head.
    WalkFailed,
}

/// Why a revision could not be measured.
#[derive(Clone, Copy, Debug, PartialEq, Eq, Structural)]
pub enum MeasurementFault {
    /// No revision was named.
    EmptyRevision,
    /// The disk-usage query reported failure.
    QueryFailed,
    /// The output of the classification query could not be read to its end.
    ReadFailed,
    /// The task that feeds object ids to the classification query panicked.
    FeederPanicked,
    /// The task that feeds object ids to the classification query could not
    /// write them.
    FeederFailed,
    /// The classification query could not be waited for.
    ClassifierLost,
    /// The object-listing query could not be waited for.
    ListerLost,
    /// The sizes add up to more than a `u64` holds.
    TotalTooLarge,
    /// No measurement came back for a sample.
    Missing,
}

/// A failure of the pipeline. Each is fatal for the run.
#[derive(Clone, Copy, Debug, PartialEq, Eq, Structural)]
pub enum PipelineError {
    /// The repository cannot be opened.
    RepositoryAccess(RepositoryFault),
    /// The history cannot be walked.
    HistoryWalk(HistoryFault),
    /// A revision's recorded time falls on no calendar date.
    TimestampInvalid { timestamp: i64 },
    /// A size query failed.
    MeasurementFailure(MeasurementFault),
    /// The results could not be written.
    OutputWrite,
}

/// The class under which a failure is reported.
#[derive(Clone, Copy, Debug, PartialEq, Eq, Structural)]
pub enum ErrorKind {
    /// Something that was given is not as it must be.
    Validation,
    /// A query did not run to a good end.
    Command,
    /// Reading or writing failed.
    Io,
}

impl ErrorKind {
    /// The words that begin the report of a failure of this class.
    pub open spec fn label_text(self) -> Seq<char> {
        match self {
            ErrorKind::Validation => "Validation error"@,
            ErrorKind::Command => "Command error"@,
            ErrorKind::Io => "IO error"@,
        }
    }

    /// The words that begin the report of a failure of this class.
    pub fn label(&self) -> (text: &'static str)
        ensures
            text@ == self.label_text(),
    {
        match self {
            ErrorKind::Validation => "Validation error",
            ErrorKind::Command => "Command error",
            ErrorKind::Io => "IO error",
        }
    }
}

impl PipelineError {
    /// The class of the failure.
    pub open spec fn kind_of(self) -> ErrorKind {
        match self {
            PipelineError::RepositoryAccess(_) => ErrorKind::Validation,
            PipelineError::HistoryWalk(fault) => match fault {
                HistoryFault::WalkFailed => ErrorKind::Command,
                _ => ErrorKind::Validation,
            },
            PipelineError::TimestampInvalid { .. } => ErrorKind::Validation,
            PipelineError::MeasurementFailure(fault) => match fault {
                MeasurementFault::EmptyRevision => ErrorKind::Validation,
                MeasurementFault::TotalTooLarge => ErrorKind::Validation,
                MeasurementFault::ReadFailed => ErrorKind::Io,
                _ => ErrorKind::Command,
            },
            PipelineError::OutputWrite => ErrorKind::Io,
        }
    }

    /// What went wrong, in words.
    pub open spec fn detail_text(self) -> Seq<char> {
        match self {
            PipelineError::RepositoryAccess(fault) => match fault {
                RepositoryFault::Missing => "Repository path does not exist"@,
                RepositoryFault::Bare => "Cannot open repository: the path appears to be a bare git repository"@,
                RepositoryFault::Corrupted => "Cannot open repository: the .git directory exists but may be corrupted or inaccessible"@,
                RepositoryFault::NotARepository => "Cannot open repository: path is not a git repository"@,
            },
            PipelineError::HistoryWalk(fault) => match fault {
                HistoryFault::NoRevisions => "No commits found in repository"@,
                HistoryFault::MalformedRecord { .. } => "Failed to read a commit of the history"@,
                HistoryFault::RepeatedRevision => "A commit is listed more than once"@,
                HistoryFault::WalkFailed => "Failed to walk the history from HEAD"@,
            },
            PipelineError::TimestampInvalid { .. } => "Invalid commit timestamp"@,
            PipelineError::MeasurementFailure(fault) => match fault {
                MeasurementFault::EmptyRevision => "Commit hash cannot be empty"@,
                MeasurementFault::QueryFailed => "Failed to get disk usage"@,
                MeasurementFault::ReadFailed => "Failed to read the object sizes"@,
                MeasurementFault::FeederPanicked => "Stdin thread panicked"@,
                MeasurementFault::FeederFailed => "Failed writing to stdin"@,
                MeasurementFault::ClassifierLost => "Failed to wait for git cat-file"@,
                MeasurementFault::ListerLost => "Failed to wait for git rev-list"@,
                MeasurementFault::TotalTooLarge => "Uncompressed size is too large"@,
                MeasurementFault::Missing => "A size measurement is missing"@,
            },
            PipelineError::OutputWrite => "Failed to write the output"@,
        }
    }

    /// The class of the failure.
    pub fn kind(&self) -> (kind: ErrorKind)
        ensures
            kind == self.kind_of(),
    {
        match self {
            PipelineError::RepositoryAccess(_) => ErrorKind::Validation,
            PipelineError::HistoryWalk(fault) => match fault {
                HistoryFault::WalkFailed => ErrorKind::Command,
                _ => ErrorKind::Validation,
            },
            PipelineError::TimestampInvalid { .. } => ErrorKind::Validation,
            PipelineError::MeasurementFailure(fault) => match fault {
                MeasurementFault::EmptyRevision => ErrorKind::Validation,
                MeasurementFault::TotalTooLarge => ErrorKind::Validation,
                MeasurementFault::ReadFailed => ErrorKind::Io,
                _ => ErrorKind::Command,
            },
            PipelineError::OutputWrite => ErrorKind::Io,
        }
    }

    /// What went wrong, in words.
    pub fn detail(&self) -> (text: &'static str)
        ensures
            text@ == self.detail_text(),
    {
        match self {
            PipelineError::RepositoryAccess(fault) => match fault {
                RepositoryFault::Missing => "Repository path does not exist",
                RepositoryFault::Bare => "Cannot open repository: the path appears to be a bare git repository",
                RepositoryFault::Corrupted => "Cannot open repository: the .git directory exists but may be corrupted or inaccessible",
                RepositoryFault::NotARepository => "Cannot open repository: path is not a git repository",
            },
            PipelineError::HistoryWalk(fault) => match fault {
                HistoryFault::NoRevisions => "No commits found in repository",
                HistoryFault::MalformedRecord { .. } => "Failed to read a commit of the history",
                HistoryFault::RepeatedRevision => "A commit is listed more than once",
                HistoryFault::WalkFailed => "Failed to walk the history from HEAD",
            },
            PipelineError::TimestampInvalid { .. } => "Invalid commit timestamp",
            PipelineError::MeasurementFailure(fault) => match fault {
                MeasurementFault::EmptyRevision => "Commit hash cannot be empty",
                MeasurementFault::QueryFailed => "Failed to get disk usage",
                MeasurementFault::ReadFailed => "Failed to read the object sizes",
                MeasurementFault::FeederPanicked => "Stdin thread panicked",
                MeasurementFault::FeederFailed => "Failed writing to stdin",
                MeasurementFault::ClassifierLost => "Failed to wait for git cat-file",
                MeasurementFault::ListerLost => "Failed to wait for git rev-list",
                MeasurementFault::TotalTooLarge => "Uncompressed size is too large",
                MeasurementFault::Missing => "A size measurement is missing",
            },
            PipelineError::OutputWrite => "Failed to write the output",
        }
    }

    /// What the failure is about, in words that follow what went wrong: the
    /// timestamp that falls on no date, or the place of the record that
    /// could not be read.
    pub open spec fn context_text(self) -> Seq<char> {
        match self {
            PipelineError::TimestampInvalid { timestamp } => ": "@ + text_of(
                signed_decimal_text(timestamp as int),
            ),
            PipelineError::HistoryWalk(HistoryFault::MalformedRecord { position }) => ", record "@
                + text_of(decimal_text(position as nat)),
            _ => Seq::empty(),
        }
    }

    /// The report of the failure: its class, a colon, what went wrong, and
    /// what it is about.
    pub fn message(&self) -> (text: String)
        ensures
            text@ == self.kind_of().label_text() + ": "@ + self.detail_text() + self.context_text(),
    {
        let mut text = self.kind().label().to_owned();
        text.append(": ");
        text.append(self.detail());
        match self {
            PipelineError::TimestampInvalid { timestamp } => {
                text.append(": ");
                text.append(signed_decimal_string(*timestamp).as_str());
            },
            PipelineError::HistoryWalk(HistoryFault::MalformedRecord { position }) => {
                text.append(", record ");
                text.append(decimal_string(*position as u64).as_str());
            },
            _ => {},
        }
        text
    }
}

} // verus!
