//! The history index: every revision that the head reaches, once, in
//! chronological order.

use vstd::prelude::*;
use vstd::utf8::encode_utf8;
use crate::calendar::{has_calendar_date, timestamp_is_valid};
use crate::error::{HistoryFault, PipelineError};
use crate::sorting::{
    chronological_order, is_chronological, lemma_chronological_order_is_unique,
    lemma_order_holds_every_position, precedes,
};
use crate::text::{
    all_ascii, ascii_string, fields_of, i64_of_text, leading_fields, parse_i64, parse_u64, text_of,
    trim, trimmed, u64_of_text,
};

verus! {

/// The characters of a hexadecimal number: the digits and the letters `a` to
/// `f` in either case.
pub open spec fn is_hex_digit(c: char) -> bool {
    ('0' <= c && c <= '9') || ('a' <= c && c <= 'f') || ('A' <= c && c <= 'F')
}

/// Whether a text can name a revision: one to forty hexadecimal digits.
pub open spec fn is_object_id(text: Seq<char>) -> bool {
    &&& 1 <= text.len() <= 40
    &&& forall|i: int| 0 <= i < text.len() ==> is_hex_digit(#[trigger] text[i])
}

/// Has `git2::Oid::from_str` parse `text` and says whether it did. The
/// contract states what the function accepts: a text that is not empty, has
/// at most forty characters and holds hexadecimal digits only. The function
/// panics where the underlying library cannot be set up, whatever the text.
#[verifier::external_body]
fn git_accepts_id(text: &str) -> (accepted: bool)
    ensures
        accepted == is_object_id(text@),
{
    git2::Oid::from_str(text).is_ok()
}

/// Whether `text` can name a revision.
pub fn valid_object_id(text: &str) -> (valid: bool)
    ensures
        valid == is_object_id(text@),
{
    git_accepts_id(text)
}

/// One revision: its id and the time it records, in seconds since the epoch.
#[derive(Clone, Debug, PartialEq, Eq)]
pub struct RevisionRecord {
    /// The revision's id, in hexadecimal.
    pub id: String,
    /// The revision's commit time.
    pub timestamp: i64,
}

/// What a revision record stands for.
pub struct RevisionView {
    /// The characters of the id.
    pub id: Seq<char>,
    /// The commit time, in seconds since the epoch.
    pub timestamp: i64,
}

impl View for RevisionRecord {
    type V = RevisionView;

    open spec fn view(&self) -> RevisionView {
        RevisionView { id: self.id@, timestamp: self.timestamp }
    }
}

/// Whether a revision can stand in the index: its id names a revision and
/// its time falls on a calendar date.
pub open spec fn is_indexable(revision: RevisionView) -> bool {
    is_object_id(revision.id) && has_calendar_date(revision.timestamp as int)
}

/// The revision that a line of the traversal describes: a timestamp and then
/// an id. Anything after the two is left aside.
pub open spec fn record_of_line(line: Seq<u8>) -> Option<RevisionView> {
    if fields_of(line).len() >= 2 && i64_of_text(fields_of(line)[0]) is Some && is_object_id(
        text_of(fields_of(line)[1]),
    ) {
        Some(
            RevisionView {
                id: text_of(fields_of(line)[1]),
                timestamp: i64_of_text(fields_of(line)[0]).unwrap(),
            },
        )
    } else {
        None
    }
}

/// Reads one line of the traversal.
pub fn parse_record(line: &[u8]) -> (record: Option<RevisionRecord>)
    ensures
        record is Some <==> record_of_line(line@) is Some,
        record matches Some(r) ==> record_of_line(line@) == Some(r@),
{
    let fields = leading_fields(line, 2);
    if fields.len() < 2 {
        return None;
    }
    let timestamp = match parse_i64(fields[0]) {
        Some(timestamp) => timestamp,
        None => {
            return None;
        },
    };
    let id_bytes = fields[1];
    if !all_ascii(id_bytes) {
        proof {
            let at = choose|at: int| 0 <= at < id_bytes@.len() && id_bytes@[at] >= 128;
            assert(!is_hex_digit(text_of(id_bytes@)[at]));
        }
        return None;
    }
    let id = ascii_string(id_bytes);
    if !git_accepts_id(id.as_str()) {
        return None;
    }
    Some(RevisionRecord { id, timestamp })
}

/// What is wrong with the line at `position` of the traversal, if anything
/// is: it describes no revision, or one whose time falls on no calendar
/// date.
pub open spec fn record_fault(line: Seq<u8>, position: int) -> Option<PipelineError> {
    match record_of_line(line) {
        None => Some(
            PipelineError::HistoryWalk(HistoryFault::MalformedRecord { position: position as usize }),
        ),
        Some(revision) => if has_calendar_date(revision.timestamp as int) {
            None
        } else {
            Some(PipelineError::TimestampInvalid { timestamp: revision.timestamp })
        },
    }
}

/// What records stand for, one by one.
pub open spec fn views_of(records: Seq<RevisionRecord>) -> Seq<RevisionView> {
    Seq::new(records.len(), |i: int| records[i]@)
}

/// The timestamps of revisions, one by one.
pub open spec fn stamps_of(revisions: Seq<RevisionView>) -> Seq<i64> {
    Seq::new(revisions.len(), |i: int| revisions[i].timestamp)
}

/// Whether `index` is the history index of a traversal: the traversal's
/// revisions, each once, by ascending timestamp, and those with the same
/// timestamp from the last met to the first met.
pub open spec fn is_index_of(traversal: Seq<RevisionView>, index: Seq<RevisionView>) -> bool {
    exists|order: Seq<usize>|
        {
            &&& is_chronological(stamps_of(traversal), order)
            &&& index.len() == traversal.len()
            &&& forall|k: int| 0 <= k < index.len() ==> #[trigger] index[k] == traversal[order[k] as int]
        }
}

/// Whether an id stands with more than one of the revisions.
pub open spec fn has_repeated_id(revisions: Seq<RevisionView>) -> bool {
    exists|i: int, j: int|
        0 <= i < j < revisions.len() && (#[trigger] revisions[i]).id == (#[trigger] revisions[j]).id
}

/// Whether revisions form a history index: there is one at least, each can
/// stand in the index, none is older than one before it, and no id stands
/// with two of them.
pub open spec fn is_history(revisions: Seq<RevisionView>) -> bool {
    &&& revisions.len() > 0
    &&& forall|i: int| 0 <= i < revisions.len() ==> is_indexable(#[trigger] revisions[i])
    &&& forall|i: int, j: int|
        0 <= i < j < revisions.len() ==> (#[trigger] revisions[i]).timestamp <= (
        #[trigger] revisions[j]).timestamp
    &&& !has_repeated_id(revisions)
}

/// The index of a traversal is one sequence and no other.
pub proof fn lemma_index_is_unique(
    traversal: Seq<RevisionView>,
    one: Seq<RevisionView>,
    other: Seq<RevisionView>,
)
    requires
        is_index_of(traversal, one),
        is_index_of(traversal, other),
    ensures
        one == other,
{
    let stamps = stamps_of(traversal);
    let first = choose|order: Seq<usize>|
        {
            &&& is_chronological(stamps, order)
            &&& one.len() == traversal.len()
            &&& forall|k: int| 0 <= k < one.len() ==> #[trigger] one[k] == traversal[order[k] as int]
        };
    let second = choose|order: Seq<usize>|
        {
            &&& is_chronological(stamps, order)
            &&& other.len() == traversal.len()
            &&& forall|k: int| 0 <= k < other.len() ==> #[trigger] other[k] == traversal[order[k] as int]
        };
    lemma_chronological_order_is_unique(stamps, first, second);
    assert(one =~= other);
}

/// The index of a traversal holds an id twice where the traversal does, and
/// only there.
pub proof fn lemma_index_keeps_ids(traversal: Seq<RevisionView>, index: Seq<RevisionView>)
    requires
        is_index_of(traversal, index),
    ensures
        has_repeated_id(index) == has_repeated_id(traversal),
{
    let stamps = stamps_of(traversal);
    let order = choose|order: Seq<usize>|
        {
            &&& is_chronological(stamps, order)
            &&& index.len() == traversal.len()
            &&& forall|k: int| 0 <= k < index.len() ==> #[trigger] index[k] == traversal[order[k] as int]
        };
    if has_repeated_id(index) {
        let (a, b) = choose|a: int, b: int|
            0 <= a < b < index.len() && (#[trigger] index[a]).id == (#[trigger] index[b]).id;
        assert(precedes(
            (stamps[order[a] as int], order[a]),
            (stamps[order[b] as int], order[b]),
        ));
        let i = order[a] as int;
        let j = order[b] as int;
        assert(index[a] == traversal[i] && index[b] == traversal[j]);
        if i < j {
            assert(traversal[i].id == traversal[j].id);
        } else {
            assert(traversal[j].id == traversal[i].id);
        }
    }
    if has_repeated_id(traversal) {
        let (i, j) = choose|i: int, j: int|
            0 <= i < j < traversal.len() && (#[trigger] traversal[i]).id == (
            #[trigger] traversal[j]).id;
        lemma_order_holds_every_position(stamps, order, i);
        lemma_order_holds_every_position(stamps, order, j);
        let a = choose|a: int| 0 <= a < order.len() && #[trigger] order[a] == i;
        let b = choose|b: int| 0 <= b < order.len() && #[trigger] order[b] == j;
        assert(index[a] == traversal[i] && index[b] == traversal[j]);
        if a < b {
            assert(index[a].id == index[b].id);
        } else {
            assert(index[b].id == index[a].id);
        }
    }
}

/// The oldest and the newest revision of a history, and how many it has.
#[derive(Clone, Debug, PartialEq, Eq)]
pub struct CommitRange {
    /// The oldest revision.
    pub first: RevisionRecord,
    /// The newest revision.
    pub last: RevisionRecord,
    /// The number of revisions.
    pub total_count: usize,
}

/// The history index. Its view is its revisions, oldest first.
pub struct HistoryIndex {
    records: Vec<RevisionRecord>,
}

impl View for HistoryIndex {
    type V = Seq<RevisionView>;

    closed spec fn view(&self) -> Seq<RevisionView> {
        views_of(self.records@)
    }
}

impl HistoryIndex {
    /// What holds of every index: its revisions form a history.
    #[verifier::type_invariant]
    pub closed spec fn sound(&self) -> bool {
        is_history(views_of(self.records@))
    }

    /// The revisions, oldest first.
    pub fn records(&self) -> (records: &Vec<RevisionRecord>)
        ensures
            views_of(records@) == self@,
            is_history(self@),
    {
        proof {
            use_type_invariant(self);
        }
        &self.records
    }

    /// The number of revisions; never 0.
    pub fn len(&self) -> (count: usize)
        ensures
            count == self@.len(),
            count > 0,
    {
        proof {
            use_type_invariant(self);
        }
        self.records.len()
    }

    /// The oldest and the newest revision, and the number of revisions.
    pub fn range(&self) -> (range: CommitRange)
        ensures
            range.first@ == self@[0],
            range.last@ == self@[self@.len() - 1],
            range.total_count == self@.len(),
            range.first.timestamp <= range.last.timestamp,
    {
        proof {
            use_type_invariant(self);
        }
        let count = self.records.len();
        let oldest = &self.records[0];
        let newest = &self.records[count - 1];
        proof {
            assert(views_of(self.records@)[0] == oldest@);
            assert(views_of(self.records@)[count - 1] == newest@);
        }
        CommitRange {
            first: RevisionRecord { id: oldest.id.clone(), timestamp: oldest.timestamp },
            last: RevisionRecord { id: newest.id.clone(), timestamp: newest.timestamp },
            total_count: count,
        }
    }
}

/// A number drawn from the bytes of a text. Two texts that are the same have
/// the same mark, so that texts with different marks are different.
spec fn mark_of(bytes: Seq<u8>) -> int
    decreases bytes.len(),
{
    if bytes.len() == 0 {
        0
    } else {
        (mark_of(bytes.drop_last()) % 0x100_0000_0000_0000) * 16 + bytes.last() % 16
    }
}

/// The mark of an id.
fn id_mark(id: &str) -> (mark: i64)
    ensures
        mark == mark_of(encode_utf8(id@)),
{
    let bytes = id.as_bytes();
    let mut mark: i64 = 0;
    let mut i: usize = 0;
    while i < bytes.len()
        invariant
            i <= bytes@.len(),
            0 <= mark < 0x1000_0000_0000_0000,
            mark == mark_of(bytes@.take(i as int)),
        decreases bytes@.len() - i,
    {
        proof {
            assert(bytes@.take(i + 1).drop_last() =~= bytes@.take(i as int));
        }
        mark = (mark % 0x100_0000_0000_0000) * 16 + (bytes[i] % 16) as i64;
        i = i + 1;
    }
    proof {
        assert(bytes@.take(i as int) =~= bytes@);
    }
    mark
}

/// Whether an id stands with more than one of the records. The records are
/// sorted by the marks of their ids, and only ids with one mark are held
/// against each other.
fn holds_repeated_id(records: &Vec<RevisionRecord>) -> (found: bool)
    ensures
        found == has_repeated_id(views_of(records@)),
{
    let ghost revisions = views_of(records@);
    let count = records.len();
    let mut marks: Vec<i64> = Vec::new();
    let mut i: usize = 0;
    while i < count
        invariant
            count == records@.len(),
            i <= count,
            marks@.len() == i,
            forall|k: int| 0 <= k < i ==> #[trigger] marks@[k] == mark_of(encode_utf8(records@[k].id@)),
        decreases count - i,
    {
        marks.push(id_mark(records[i].id.as_str()));
        i = i + 1;
    }
    let order = chronological_order(&marks);
    let mut p: usize = 0;
    while p < count
        invariant
            count == records@.len(),
            revisions == views_of(records@),
            marks@.len() == count,
            forall|k: int| 0 <= k < count ==> #[trigger] marks@[k] == mark_of(encode_utf8(records@[k].id@)),
            is_chronological(marks@, order@),
            p <= count,
            forall|a: int, b: int|
                0 <= a < p && a < b < count ==> records@[#[trigger] order@[a] as int].id@
                    != records@[#[trigger] order@[b] as int].id@,
        decreases count - p,
    {
        let here = order[p];
        let mut q: usize = p + 1;
        while q < count && marks[order[q]] == marks[here]
            invariant
                count == records@.len(),
                revisions == views_of(records@),
                marks@.len() == count,
                is_chronological(marks@, order@),
                p < q <= count,
                here == order@[p as int],
                here < count,
                forall|b: int| p < b < q ==> records@[here as int].id@ != records@[#[trigger] order@[b] as int].id@,
            decreases count - q,
        {
            let there = order[q];
            if records[here].id == records[there].id {
                proof {
                    assert(precedes(
                        (marks@[order@[p as int] as int], order@[p as int]),
                        (marks@[order@[q as int] as int], order@[q as int]),
                    ));
                    let low = if here < there {
                        here as int
                    } else {
                        there as int
                    };
                    let high = if here < there {
                        there as int
                    } else {
                        here as int
                    };
                    assert(revisions[low].id == revisions[high].id);
                }
                return true;
            }
            q = q + 1;
        }
        proof {
            assert forall|b: int| q <= b < count implies records@[here as int].id@ != records@[#[trigger] order@[b] as int].id@ by {
                assert(precedes(
                    (marks@[order@[p as int] as int], order@[p as int]),
                    (marks@[order@[q as int] as int], order@[q as int]),
                ));
                if b > q {
                    assert(precedes(
                        (marks@[order@[q as int] as int], order@[q as int]),
                        (marks@[order@[b] as int], order@[b]),
                    ));
                }
                assert(marks@[here as int] != marks@[order@[b] as int]);
            }
        }
        p = p + 1;
    }
    proof {
        if has_repeated_id(revisions) {
            let (i, j) = choose|i: int, j: int|
                0 <= i < j < revisions.len() && (#[trigger] revisions[i]).id == (
                #[trigger] revisions[j]).id;
            lemma_order_holds_every_position(marks@, order@, i);
            lemma_order_holds_every_position(marks@, order@, j);
            let a = choose|a: int| 0 <= a < order@.len() && #[trigger] order@[a] == i;
            let b = choose|b: int| 0 <= b < order@.len() && #[trigger] order@[b] == j;
            assert(revisions[i].id == records@[i].id@);
            assert(revisions[j].id == records@[j].id@);
            if a < b {
                assert(records@[order@[a] as int].id@ != records@[order@[b] as int].id@);
            } else {
                assert(records@[order@[b] as int].id@ != records@[order@[a] as int].id@);
            }
        }
    }
    false
}

/// Collects the revisions of a traversal, newest first, and makes the
/// history index of them. Its view is the revisions taken so far, in the
/// order in which they came.
pub struct IndexBuilder {
    records: Vec<RevisionRecord>,
}

impl View for IndexBuilder {
    type V = Seq<RevisionView>;

    closed spec fn view(&self) -> Seq<RevisionView> {
        views_of(self.records@)
    }
}

impl IndexBuilder {
    /// What holds of every builder: each revision taken can stand in the
    /// index.
    #[verifier::type_invariant]
    pub closed spec fn sound(&self) -> bool {
        forall|i: int| 0 <= i < self.records@.len() ==> is_indexable(#[trigger] self.records@[i]@)
    }

    /// A builder that has taken no revision.
    pub fn new() -> (builder: IndexBuilder)
        ensures
            builder@ == Seq::<RevisionView>::empty(),
    {
        let builder = IndexBuilder { records: Vec::new() };
        proof {
            assert(builder@ =~= Seq::<RevisionView>::empty());
        }
        builder
    }

    /// How many revisions were taken.
    pub fn len(&self) -> (count: usize)
        ensures
            count == self@.len(),
    {
        self.records.len()
    }

    /// Takes a revision that can stand in the index.
    fn append(&mut self, record: RevisionRecord)
        requires
            is_indexable(record@),
        ensures
            final(self)@ == old(self)@.push(record@),
    {
        proof {
            use_type_invariant(&*self);
        }
        let ghost before = self.records@;
        let mut taken = IndexBuilder { records: Vec::new() };
        core::mem::swap(self, &mut taken);
        let mut records = taken.records;
        records.push(record);
        proof {
            assert(views_of(records@) =~= views_of(before).push(record@));
        }
        *self = IndexBuilder { records };
    }

    /// Takes the next revision of the traversal. Refuses it, and stays as it
    /// was, where the id names no revision or the time falls on no calendar
    /// date; an id that names no revision is reported first.
    pub fn push(&mut self, timestamp: i64, id: &str) -> (outcome: Result<(), PipelineError>)
        ensures
            outcome == if !is_object_id(id@) {
                Err::<(), PipelineError>(
                    PipelineError::HistoryWalk(
                        HistoryFault::MalformedRecord { position: old(self)@.len() as usize },
                    ),
                )
            } else if !has_calendar_date(timestamp as int) {
                Err::<(), PipelineError>(PipelineError::TimestampInvalid { timestamp })
            } else {
                Ok::<(), PipelineError>(())
            },
            outcome is Ok ==> final(self)@ == old(self)@.push(RevisionView { id: id@, timestamp }),
            outcome is Err ==> final(self)@ == old(self)@,
    {
        if !git_accepts_id(id) {
            return Err(
                PipelineError::HistoryWalk(
                    HistoryFault::MalformedRecord { position: self.records.len() },
                ),
            );
        }
        if !timestamp_is_valid(timestamp) {
            return Err(PipelineError::TimestampInvalid { timestamp });
        }
        self.append(RevisionRecord { id: id.to_owned(), timestamp });
        Ok(())
    }

    /// Takes the next line of the traversal. Refuses it, and stays as it
    /// was, where the line describes no revision or one whose time falls on
    /// no calendar date.
    pub fn push_line(&mut self, line: &[u8]) -> (outcome: Result<(), PipelineError>)
        ensures
            outcome == match record_fault(line@, old(self)@.len() as int) {
                Some(fault) => Err::<(), PipelineError>(fault),
                None => Ok::<(), PipelineError>(()),
            },
            outcome is Ok ==> final(self)@ == old(self)@.push(record_of_line(line@).unwrap()),
            outcome is Err ==> final(self)@ == old(self)@,
    {
        match parse_record(line) {
            Some(record) => {
                if !timestamp_is_valid(record.timestamp) {
                    return Err(PipelineError::TimestampInvalid { timestamp: record.timestamp });
                }
                self.append(record);
                Ok(())
            },
            None => Err(
                PipelineError::HistoryWalk(
                    HistoryFault::MalformedRecord { position: self.records.len() },
                ),
            ),
        }
    }

    /// Makes the history index of the revisions taken. A traversal without a
    /// revision has no index, nor has one that gave a revision twice.
    pub fn finish(self) -> (outcome: Result<HistoryIndex, PipelineError>)
        ensures
            outcome is Ok <==> self@.len() > 0 && !has_repeated_id(self@),
            outcome matches Ok(index) ==> is_index_of(self@, index@) && is_history(index@),
            outcome matches Err(fault) ==> fault == if self@.len() == 0 {
                PipelineError::HistoryWalk(HistoryFault::NoRevisions)
            } else {
                PipelineError::HistoryWalk(HistoryFault::RepeatedRevision)
            },
    {
        proof {
            use_type_invariant(&self);
        }
        let count = self.records.len();
        if count == 0 {
            return Err(PipelineError::HistoryWalk(HistoryFault::NoRevisions));
        }
        if holds_repeated_id(&self.records) {
            return Err(PipelineError::HistoryWalk(HistoryFault::RepeatedRevision));
        }
        let mut stamps: Vec<i64> = Vec::new();
        let mut i: usize = 0;
        while i < count
            invariant
                count == self.records@.len(),
                i <= count,
                stamps@.len() == i,
                forall|k: int| 0 <= k < i ==> #[trigger] stamps@[k] == self.records@[k].timestamp,
            decreases count - i,
        {
            stamps.push(self.records[i].timestamp);
            i = i + 1;
        }
        proof {
            assert(stamps@ =~= stamps_of(views_of(self.records@)));
        }
        let order = chronological_order(&stamps);
        let mut sorted: Vec<RevisionRecord> = Vec::new();
        let mut k: usize = 0;
        while k < count
            invariant
                count == self.records@.len(),
                is_chronological(stamps@, order@),
                stamps@.len() == count,
                k <= count,
                sorted@.len() == k,
                forall|n: int| 0 <= n < k ==> (#[trigger] sorted@[n])@ == self.records@[order@[n] as int]@,
            decreases count - k,
        {
            let source = &self.records[order[k]];
            sorted.push(RevisionRecord { id: source.id.clone(), timestamp: source.timestamp });
            k = k + 1;
        }
        proof {
            let traversal = views_of(self.records@);
            let index = views_of(sorted@);
            assert forall|n: int| 0 <= n < index.len() implies #[trigger] index[n] == traversal[order@[n] as int] by {
                assert(sorted@[n]@ == self.records@[order@[n] as int]@);
            }
            assert(is_index_of(traversal, index));
            lemma_index_keeps_ids(traversal, index);
            assert forall|n: int| 0 <= n < index.len() implies is_indexable(#[trigger] index[n]) by {
                assert(is_indexable(self.records@[order@[n] as int]@));
            }
            assert forall|a: int, b: int| 0 <= a < b < index.len() implies (#[trigger] index[a]).timestamp
                <= (#[trigger] index[b]).timestamp by {
                assert(index[a] == traversal[order@[a] as int]);
                assert(index[b] == traversal[order@[b] as int]);
                assert(stamps@[order@[a] as int] == traversal[order@[a] as int].timestamp);
                assert(stamps@[order@[b] as int] == traversal[order@[b] as int].timestamp);
            }
        }
        Ok(HistoryIndex { records: sorted })
    }

    /// Ends the walk. Where the traversal failed nothing of what it gave is
    /// used; where it ran to its end the history index is made of the
    /// revisions taken.
    pub fn conclude(self, walk_succeeded: bool) -> (outcome: Result<HistoryIndex, PipelineError>)
        ensures
            outcome is Ok <==> walk_succeeded && self@.len() > 0 && !has_repeated_id(self@),
            outcome matches Ok(index) ==> is_index_of(self@, index@) && is_history(index@),
            outcome matches Err(fault) ==> fault == if !walk_succeeded {
                PipelineError::HistoryWalk(HistoryFault::WalkFailed)
            } else if self@.len() == 0 {
                PipelineError::HistoryWalk(HistoryFault::NoRevisions)
            } else {
                PipelineError::HistoryWalk(HistoryFault::RepeatedRevision)
            },
    {
        if walk_succeeded {
            self.finish()
        } else {
            Err(PipelineError::HistoryWalk(HistoryFault::WalkFailed))
        }
    }
}

/// The revisions that the lines of a traversal describe, one by one.
pub open spec fn traversal_of(lines: Seq<Vec<u8>>) -> Seq<RevisionView> {
    Seq::new(lines.len(), |i: int| record_of_line(lines[i]@).unwrap())
}

/// Whether each line of a traversal describes a revision that can stand in
/// the index.
pub open spec fn is_faultless(lines: Seq<Vec<u8>>) -> bool {
    forall|i: int| 0 <= i < lines.len() ==> record_fault(#[trigger] lines[i]@, i) is None
}

/// Makes the history index of a traversal from its lines, newest first. The
/// first line that describes no revision, or one whose time falls on no
/// calendar date, ends the walk with its fault. A traversal without a line
/// has no index, nor has one that names a revision twice.
pub fn build_index(lines: &Vec<Vec<u8>>) -> (outcome: Result<HistoryIndex, PipelineError>)
    ensures
        outcome is Ok <==> lines@.len() > 0 && is_faultless(lines@) && !has_repeated_id(
            traversal_of(lines@),
        ),
        outcome matches Ok(index) ==> is_history(index@) && is_index_of(traversal_of(lines@), index@),
        outcome matches Err(fault) ==> if !is_faultless(lines@) {
            exists|at: int|
                {
                    &&& 0 <= at < lines@.len()
                    &&& record_fault(#[trigger] lines@[at]@, at) == Some(fault)
                    &&& forall|i: int| 0 <= i < at ==> record_fault(#[trigger] lines@[i]@, i) is None
                }
        } else if lines@.len() == 0 {
            fault == PipelineError::HistoryWalk(HistoryFault::NoRevisions)
        } else {
            fault == PipelineError::HistoryWalk(HistoryFault::RepeatedRevision)
        },
{
    let mut builder = IndexBuilder::new();
    let mut at: usize = 0;
    while at < lines.len()
        invariant
            at <= lines@.len(),
            builder@.len() == at,
            forall|i: int| 0 <= i < at ==> record_fault(#[trigger] lines@[i]@, i) is None,
            forall|i: int| 0 <= i < at ==> #[trigger] builder@[i] == record_of_line(lines@[i]@).unwrap(),
        decreases lines@.len() - at,
    {
        match builder.push_line(lines[at].as_slice()) {
            Ok(()) => {},
            Err(fault) => {
                return Err(fault);
            },
        }
        at = at + 1;
    }
    proof {
        assert(builder@ =~= traversal_of(lines@));
    }
    builder.finish()
}

/// The number of revisions that the output of the counting query reports:
/// the number it holds between blanks, or 0 where it holds none that a
/// `u32` can take.
pub open spec fn revision_count_of(output: Seq<u8>) -> u32 {
    match u64_of_text(trimmed(output)) {
        Some(count) => if count <= u32::MAX {
            count as u32
        } else {
            0u32
        },
        None => 0u32,
    }
}

/// Reads the output of the counting query. A history without a revision
/// cannot be analysed.
pub fn check_revision_count(output: &[u8]) -> (count: Result<u32, PipelineError>)
    ensures
        count == if revision_count_of(output@) == 0 {
            Err::<u32, PipelineError>(PipelineError::HistoryWalk(HistoryFault::NoRevisions))
        } else {
            Ok::<u32, PipelineError>(revision_count_of(output@))
        },
{
    let count: u32 = match parse_u64(trim(output)) {
        Some(count) => if count <= 4_294_967_295 {
            count as u32
        } else {
            0
        },
        None => 0,
    };
    if count == 0 {
        Err(PipelineError::HistoryWalk(HistoryFault::NoRevisions))
    } else {
        Ok(count)
    }
}

} // verus!
