//! The size of what one revision reaches, read from the output of the size
//! queries.

use vstd::prelude::*;
use crate::calendar::CalendarDate;
use crate::error::{MeasurementFault, PipelineError};
use crate::text::{
    leading_fields, last_line, parse_u64, trim, fields_of, final_line, trimmed, u64_of_text,
};

verus! {

/// The sizes measured for one sampled date.
#[derive(Clone, Copy, Debug, PartialEq, Eq)]
pub struct SizeMeasurement {
    /// The date of the sample.
    pub date: CalendarDate,
    /// The stored, compressed size in bytes of everything the revision
    /// reaches.
    pub packed_size: u64,
    /// The sum in bytes of the uncompressed sizes of the blobs the revision
    /// reaches, where it was asked for.
    pub uncompressed_size: Option<u64>,
}

/// The byte count that the output of the disk-usage query reports: the
/// number on its last line, or 0 where that line holds no number.
pub open spec fn disk_usage_of(output: Seq<u8>) -> u64 {
    match u64_of_text(trimmed(final_line(output))) {
        Some(bytes) => bytes,
        None => 0,
    }
}

/// Reads the output of the disk-usage query. Output without a usable number
/// counts as 0 bytes and is no failure.
pub fn read_disk_usage(output: &[u8]) -> (bytes: u64)
    ensures
        bytes == disk_usage_of(output@),
{
    match parse_u64(trim(last_line(output))) {
        Some(bytes) => bytes,
        None => 0,
    }
}

/// The packed size that the disk-usage query gives: a failure where the
/// query reported one, else what its output says.
pub fn packed_size(succeeded: bool, output: &[u8]) -> (size: Result<u64, PipelineError>)
    ensures
        size == if succeeded {
            Ok::<u64, PipelineError>(disk_usage_of(output@))
        } else {
            Err::<u64, PipelineError>(PipelineError::MeasurementFailure(MeasurementFault::QueryFailed))
        },
{
    if succeeded {
        Ok(read_disk_usage(output))
    } else {
        Err(PipelineError::MeasurementFailure(MeasurementFault::QueryFailed))
    }
}

/// The word by which the classification query marks leaf content: `blob`.
pub open spec fn blob_word() -> Seq<u8> {
    seq![98u8, 108u8, 111u8, 98u8]
}

/// What one line of the classification query adds to the uncompressed size.
/// The line holds an object id, the object's kind and its size; a line adds
/// its size where the kind is `blob` and the size is a number, and nothing
/// where the object is a tree, a commit or a tag, or the line is cut short.
pub open spec fn blob_size_of(line: Seq<u8>) -> Option<u64> {
    if fields_of(line).len() >= 3 && fields_of(line)[1] == blob_word() {
        u64_of_text(fields_of(line)[2])
    } else {
        None
    }
}

/// How many of the lines describe a blob with a size.
pub open spec fn blob_count(lines: Seq<Seq<u8>>) -> nat
    decreases lines.len(),
{
    if lines.len() == 0 {
        0
    } else {
        blob_count(lines.drop_last()) + if blob_size_of(lines.last()) is Some {
            1nat
        } else {
            0nat
        }
    }
}

/// The sum of the sizes of the blobs that the lines describe.
pub open spec fn blob_total(lines: Seq<Seq<u8>>) -> nat
    decreases lines.len(),
{
    if lines.len() == 0 {
        0
    } else {
        blob_total(lines.drop_last()) + match blob_size_of(lines.last()) {
            Some(size) => size as nat,
            None => 0nat,
        }
    }
}

/// Whether a field is the word `blob`.
fn is_blob_word(field: &[u8]) -> (r: bool)
    ensures
        r == (field@ == blob_word()),
{
    let same = field.len() == 4 && field[0] == 98 && field[1] == 108 && field[2] == 111
        && field[3] == 98;
    proof {
        if same {
            assert(field@ =~= blob_word());
        }
    }
    same
}

/// Reads one line of the classification query.
pub fn blob_size(line: &[u8]) -> (size: Option<u64>)
    ensures
        size == blob_size_of(line@),
{
    let fields = leading_fields(line, 3);
    if fields.len() == 3 && is_blob_word(fields[1]) {
        parse_u64(fields[2])
    } else {
        None
    }
}

/// The running totals over the lines of the classification query read so
/// far. Its view is those lines, in the order in which they were read.
pub struct BlobTally {
    objects: u64,
    blobs: u64,
    bytes: u64,
    lines: Ghost<Seq<Seq<u8>>>,
}

impl View for BlobTally {
    type V = Seq<Seq<u8>>;

    closed spec fn view(&self) -> Seq<Seq<u8>> {
        self.lines@
    }
}

impl BlobTally {
    /// What holds of every tally: its numbers are those of the lines read.
    #[verifier::type_invariant]
    spec fn sound(&self) -> bool {
        &&& self.objects == self.lines@.len()
        &&& self.blobs == blob_count(self.lines@)
        &&& self.bytes == blob_total(self.lines@)
    }

    /// The tally before any line was read.
    pub fn new() -> (tally: BlobTally)
        ensures
            tally@ == Seq::<Seq<u8>>::empty(),
    {
        BlobTally { objects: 0, blobs: 0, bytes: 0, lines: Ghost(Seq::empty()) }
    }

    /// Takes one more line into the tally. Fails, and leaves the tally as it
    /// was, where a count or the sum would no longer fit in a `u64`.
    pub fn absorb(&mut self, line: &[u8]) -> (outcome: Result<(), PipelineError>)
        ensures
            outcome is Ok <==> old(self)@.len() < u64::MAX && blob_total(old(self)@.push(line@))
                <= u64::MAX,
            outcome is Ok ==> final(self)@ == old(self)@.push(line@),
            outcome is Err ==> final(self)@ == old(self)@ && outcome == Err::<(), PipelineError>(
                PipelineError::MeasurementFailure(MeasurementFault::TotalTooLarge),
            ),
    {
        proof {
            use_type_invariant(&*self);
        }
        let ghost before = self.lines@;
        let ghost after = before.push(line@);
        proof {
            lemma_blob_count_bounded(before);
            assert(after.drop_last() =~= before);
        }
        let failure = Err(PipelineError::MeasurementFailure(MeasurementFault::TotalTooLarge));
        if self.objects == u64::MAX {
            return failure;
        }
        match blob_size(line) {
            Some(size) => {
                match self.bytes.checked_add(size) {
                    Some(sum) => {
                        *self = BlobTally {
                            objects: self.objects + 1,
                            blobs: self.blobs + 1,
                            bytes: sum,
                            lines: Ghost(after),
                        };
                        Ok(())
                    },
                    None => failure,
                }
            },
            None => {
                *self = BlobTally {
                    objects: self.objects + 1,
                    blobs: self.blobs,
                    bytes: self.bytes,
                    lines: Ghost(after),
                };
                Ok(())
            },
        }
    }

    /// How many lines were read.
    pub fn objects(&self) -> (count: u64)
        ensures
            count == self@.len(),
    {
        proof {
            use_type_invariant(self);
        }
        self.objects
    }

    /// How many of the lines read describe a blob.
    pub fn blobs(&self) -> (count: u64)
        ensures
            count == blob_count(self@),
    {
        proof {
            use_type_invariant(self);
        }
        self.blobs
    }

    /// The sum of the sizes of the blobs read.
    pub fn bytes(&self) -> (sum: u64)
        ensures
            sum == blob_total(self@),
    {
        proof {
            use_type_invariant(self);
        }
        self.bytes
    }
}

/// No more lines describe a blob than there are lines.
pub proof fn lemma_blob_count_bounded(lines: Seq<Seq<u8>>)
    ensures
        blob_count(lines) <= lines.len(),
    decreases lines.len(),
{
    if lines.len() > 0 {
        lemma_blob_count_bounded(lines.drop_last());
    }
}

/// Lines that describe no blob add nothing: where no line of `lines`
/// describes a blob, their total is 0.
pub proof fn lemma_other_kinds_add_nothing(lines: Seq<Seq<u8>>)
    requires
        forall|i: int| 0 <= i < lines.len() ==> blob_size_of(#[trigger] lines[i]) is None,
    ensures
        blob_total(lines) == 0,
        blob_count(lines) == 0,
    decreases lines.len(),
{
    if lines.len() > 0 {
        lemma_other_kinds_add_nothing(lines.drop_last());
    }
}

/// The uncompressed size of a revision with one blob is the size of that
/// blob, whatever trees, commits and tags are listed around it: where line
/// `at` describes a blob of `size` bytes and no other line describes a blob,
/// the total is `size`.
pub proof fn lemma_single_blob_total(lines: Seq<Seq<u8>>, at: int, size: u64)
    requires
        0 <= at < lines.len(),
        blob_size_of(lines[at]) == Some(size),
        forall|i: int| 0 <= i < lines.len() && i != at ==> blob_size_of(#[trigger] lines[i]) is None,
    ensures
        blob_total(lines) == size,
        blob_count(lines) == 1,
    decreases lines.len(),
{
    if at == lines.len() - 1 {
        lemma_other_kinds_add_nothing(lines.drop_last());
    } else {
        lemma_single_blob_total(lines.drop_last(), at, size);
    }
}

/// The total is that of the lines that describe a blob, taken alone.
pub proof fn lemma_total_counts_blobs_only(lines: Seq<Seq<u8>>)
    ensures
        blob_total(lines) == blob_total(lines.filter(|line: Seq<u8>| blob_size_of(line) is Some)),
    decreases lines.len(),
{
    reveal(Seq::filter);
    let keep = |line: Seq<u8>| blob_size_of(line) is Some;
    if lines.len() > 0 {
        lemma_total_counts_blobs_only(lines.drop_last());
        let kept = lines.drop_last().filter(keep);
        if keep(lines.last()) {
            assert(kept.push(lines.last()).drop_last() =~= kept);
        }
    }
}

/// The id that a line of the object listing begins with: its first field.
/// A line without a field names no object.
pub fn object_id<'a>(line: &'a [u8]) -> (id: Option<&'a [u8]>)
    ensures
        id is Some <==> fields_of(line@).len() > 0,
        id matches Some(field) ==> field@ == fields_of(line@)[0],
{
    let fields = leading_fields(line, 1);
    if fields.len() == 1 {
        Some(fields[0])
    } else {
        None
    }
}

/// How the task ended that feeds the object ids to the classification query.
#[derive(Clone, Copy, Debug, PartialEq, Eq, Structural)]
pub enum FeederEnd {
    /// It wrote every id and closed the query's input.
    Finished,
    /// It panicked.
    Panicked,
    /// It could not write an id.
    WriteFailed,
}

/// What became of the two queries that run side by side for the uncompressed
/// size, and of the task between them.
#[derive(Clone, Copy, Debug, PartialEq, Eq, Structural)]
pub struct PipelineReport {
    /// Whether the output of the classification query was read to its end.
    pub output_read: bool,
    /// How the feeding task ended.
    pub feeder: FeederEnd,
    /// Whether the classification query was waited for.
    pub classifier_reaped: bool,
    /// Whether the object-listing query was waited for.
    pub lister_reaped: bool,
}

/// The first thing that went wrong in the pipeline, if anything did: a
/// failed read, then the feeding task, then the classification query, then
/// the object-listing query.
pub open spec fn pipeline_fault(report: PipelineReport) -> Option<MeasurementFault> {
    if !report.output_read {
        Some(MeasurementFault::ReadFailed)
    } else if report.feeder is Panicked {
        Some(MeasurementFault::FeederPanicked)
    } else if report.feeder is WriteFailed {
        Some(MeasurementFault::FeederFailed)
    } else if !report.classifier_reaped {
        Some(MeasurementFault::ClassifierLost)
    } else if !report.lister_reaped {
        Some(MeasurementFault::ListerLost)
    } else {
        None
    }
}

/// The uncompressed size that a finished pipeline gives: the sum of the
/// tally where nothing went wrong, else the first failure. A failure of the
/// feeding task is never dropped.
pub fn uncompressed_size(tally: &BlobTally, report: &PipelineReport) -> (size: Result<
    u64,
    PipelineError,
>)
    ensures
        size == match pipeline_fault(*report) {
            Some(fault) => Err::<u64, PipelineError>(PipelineError::MeasurementFailure(fault)),
            None => Ok::<u64, PipelineError>(blob_total(tally@) as u64),
        },
        pipeline_fault(*report) is None ==> size == Ok::<u64, PipelineError>(
            blob_total(tally@) as u64,
        ) && blob_total(tally@) <= u64::MAX,
{
    if !report.output_read {
        Err(PipelineError::MeasurementFailure(MeasurementFault::ReadFailed))
    } else {
        match report.feeder {
            FeederEnd::Panicked => Err(
                PipelineError::MeasurementFailure(MeasurementFault::FeederPanicked),
            ),
            FeederEnd::WriteFailed => Err(
                PipelineError::MeasurementFailure(MeasurementFault::FeederFailed),
            ),
            FeederEnd::Finished => {
                if !report.classifier_reaped {
                    Err(PipelineError::MeasurementFailure(MeasurementFault::ClassifierLost))
                } else if !report.lister_reaped {
                    Err(PipelineError::MeasurementFailure(MeasurementFault::ListerLost))
                } else {
                    Ok(tally.bytes())
                }
            },
        }
    }
}

/// What a measurement does next.
#[derive(Clone, Copy, Debug, PartialEq, Eq)]
pub enum MeasureStep {
    /// Run the disk-usage query on the revision.
    QueryDiskUsage,
    /// Run the object listing into the classification query and add up the
    /// blobs.
    SumBlobs { packed_size: u64 },
    /// Nothing: the sizes are known.
    Done { packed_size: u64, uncompressed_size: Option<u64> },
}

/// Starts the measurement of a revision. A revision without a name is
/// refused; any other is measured by the disk-usage query first.
pub fn begin_measurement(revision: &str) -> (step: Result<MeasureStep, PipelineError>)
    ensures
        step == if revision@.len() == 0 {
            Err::<MeasureStep, PipelineError>(
                PipelineError::MeasurementFailure(MeasurementFault::EmptyRevision),
            )
        } else {
            Ok::<MeasureStep, PipelineError>(MeasureStep::QueryDiskUsage)
        },
{
    if revision.is_empty() {
        Err(PipelineError::MeasurementFailure(MeasurementFault::EmptyRevision))
    } else {
        Ok(MeasureStep::QueryDiskUsage)
    }
}

/// Goes on when the disk-usage query has ended: fails where the query did,
/// else takes the packed size from its output, and goes on to the blobs only
/// where the uncompressed size is wanted.
pub fn after_disk_usage(succeeded: bool, output: &[u8], with_uncompressed: bool) -> (step: Result<
    MeasureStep,
    PipelineError,
>)
    ensures
        step == if !succeeded {
            Err::<MeasureStep, PipelineError>(
                PipelineError::MeasurementFailure(MeasurementFault::QueryFailed),
            )
        } else if with_uncompressed {
            Ok::<MeasureStep, PipelineError>(
                MeasureStep::SumBlobs { packed_size: disk_usage_of(output@) },
            )
        } else {
            Ok::<MeasureStep, PipelineError>(
                MeasureStep::Done { packed_size: disk_usage_of(output@), uncompressed_size: None },
            )
        },
{
    match packed_size(succeeded, output) {
        Ok(size) => {
            if with_uncompressed {
                Ok(MeasureStep::SumBlobs { packed_size: size })
            } else {
                Ok(MeasureStep::Done { packed_size: size, uncompressed_size: None })
            }
        },
        Err(error) => Err(error),
    }
}

/// Ends the measurement when the pipeline has: with both sizes, or with the
/// pipeline's first failure.
pub fn after_pipeline(packed_size: u64, tally: &BlobTally, report: &PipelineReport) -> (step:
    Result<MeasureStep, PipelineError>)
    ensures
        step == match pipeline_fault(*report) {
            Some(fault) => Err::<MeasureStep, PipelineError>(
                PipelineError::MeasurementFailure(fault),
            ),
            None => Ok::<MeasureStep, PipelineError>(
                MeasureStep::Done {
                    packed_size,
                    uncompressed_size: Some(blob_total(tally@) as u64),
                },
            ),
        },
{
    match uncompressed_size(tally, report) {
        Ok(total) => Ok(MeasureStep::Done { packed_size, uncompressed_size: Some(total) }),
        Err(error) => Err(error),
    }
}

} // verus!
