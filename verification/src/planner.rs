//! The sample planner: the dates at which the history is sampled, and the
//! revision that stands for each of them.
//!
//! A date is represented by the revision nearest in time to it. Of two
//! revisions equally near, the earlier one is taken. No date is represented
//! by the latest revision at or before it unless that one is also the
//! nearest.

use vstd::prelude::*;
use crate::calendar::{day_number, day_of, CalendarDate};
use crate::history::{is_history, stamps_of, views_of, HistoryIndex, RevisionRecord, RevisionView};

verus! {

/// The interval between two sample dates.
#[derive(Clone, Copy, Debug, PartialEq, Eq, Structural)]
pub enum Cadence {
    /// A step of 365 days.
    Yearly,
    /// A step of 30 days.
    Monthly,
}

/// The seconds of a year of 365.25 days.
pub const SECONDS_PER_YEAR: i64 = 31_557_600;

/// The age in years above which a history is sampled by the year.
pub const YEARLY_THRESHOLD_YEARS: i64 = 6;

/// The seconds of the yearly step.
pub const YEARLY_INTERVAL: i64 = 31_536_000;

/// The seconds of the monthly step.
pub const MONTHLY_INTERVAL: i64 = 2_592_000;

/// The cadence that a caller's two switches force: the yearly one wins over
/// the monthly one, and without either none is forced.
pub open spec fn forced_by(yearly: bool, monthly: bool) -> Option<Cadence> {
    if yearly {
        Some(Cadence::Yearly)
    } else if monthly {
        Some(Cadence::Monthly)
    } else {
        None
    }
}

/// The cadence that fits a history from `first` to `last`: yearly where it
/// spans more than six years, monthly where it spans six years or less.
pub open spec fn cadence_by_span(first: int, last: int) -> Cadence {
    if last - first > 6 * 31_557_600 {
        Cadence::Yearly
    } else {
        Cadence::Monthly
    }
}

/// The cadence of a plan: the forced one, or else the one that fits the
/// span.
pub open spec fn cadence_of(forced: Option<Cadence>, first: int, last: int) -> Cadence {
    match forced {
        Some(cadence) => cadence,
        None => cadence_by_span(first, last),
    }
}

/// The seconds of a cadence's step.
pub open spec fn interval_of(cadence: Cadence) -> int {
    match cadence {
        Cadence::Yearly => 31_536_000,
        Cadence::Monthly => 2_592_000,
    }
}

/// The threshold of six years is exclusive: a history that spans six years
/// to the second is sampled monthly, and one that spans any more is sampled
/// yearly.
pub proof fn lemma_threshold_is_exclusive(first: int, last: int)
    ensures
        last - first == YEARLY_THRESHOLD_YEARS * SECONDS_PER_YEAR ==> cadence_by_span(first, last)
            == Cadence::Monthly,
        last - first > YEARLY_THRESHOLD_YEARS * SECONDS_PER_YEAR ==> cadence_by_span(first, last)
            == Cadence::Yearly,
        last - first < YEARLY_THRESHOLD_YEARS * SECONDS_PER_YEAR ==> cadence_by_span(first, last)
            == Cadence::Monthly,
{
}

/// The cadence that the two switches force.
pub fn forced_cadence(yearly: bool, monthly: bool) -> (forced: Option<Cadence>)
    ensures
        forced == forced_by(yearly, monthly),
{
    if yearly {
        Some(Cadence::Yearly)
    } else if monthly {
        Some(Cadence::Monthly)
    } else {
        None
    }
}

/// The cadence for a history whose oldest revision is of `first` and whose
/// newest is of `last`.
pub fn select_cadence(forced: Option<Cadence>, first: i64, last: i64) -> (cadence: Cadence)
    ensures
        cadence == cadence_of(forced, first as int, last as int),
{
    match forced {
        Some(cadence) => cadence,
        None => {
            let span: i128 = last as i128 - first as i128;
            let limit: i128 = YEARLY_THRESHOLD_YEARS as i128 * SECONDS_PER_YEAR as i128;
            if span > limit {
                Cadence::Yearly
            } else {
                Cadence::Monthly
            }
        },
    }
}

/// The seconds of the step of `cadence`.
pub fn interval_seconds(cadence: Cadence) -> (step: i64)
    ensures
        step == interval_of(cadence),
{
    match cadence {
        Cadence::Yearly => YEARLY_INTERVAL,
        Cadence::Monthly => MONTHLY_INTERVAL,
    }
}

/// How many steps of `step` seconds begin in the time from `first` to
/// `last`.
pub open spec fn grid_len(first: int, last: int, step: int) -> nat {
    if first <= last {
        ((last - first) / step + 1) as nat
    } else {
        0
    }
}

/// The moments at which a history from `first` to `last` is sampled: every
/// `step` seconds from `first` on as long as `last` is not passed, and then
/// `last` itself where it was not reached.
pub open spec fn targets_of(first: i64, last: i64, step: int) -> Seq<i64> {
    let grid = Seq::new(grid_len(first as int, last as int, step), |k: int| (first + k * step) as i64);
    if grid.len() > 0 && grid.last() == last {
        grid
    } else {
        grid.push(last)
    }
}

/// The moments at which to sample a history from `first` to `last` at the
/// given cadence, in ascending order.
pub fn sample_targets(first: i64, last: i64, cadence: Cadence) -> (targets: Vec<i64>)
    ensures
        targets@ == targets_of(first, last, interval_of(cadence)),
        targets@.len() > 0,
        targets@[targets@.len() - 1] == last,
        first <= last ==> targets@[0] == first,
        forall|j: int, k: int|
            0 <= j < k < targets@.len() ==> #[trigger] targets@[j] < #[trigger] targets@[k],
        forall|j: int, k: int|
            0 <= j < k < targets@.len() - 1 ==> #[trigger] targets@[j] + 86_400 <= #[trigger] targets@[k],
{
    let step = interval_seconds(cadence);
    let mut targets: Vec<i64> = Vec::new();
    let ghost grid = Seq::new(
        grid_len(first as int, last as int, step as int),
        |k: int| (first + k * step) as i64,
    );
    if first <= last {
        let mut current: i64 = first;
        let ghost mut k: int = 0;
        loop
            invariant_except_break
                targets@.len() == k,
                current == first + k * step,
            invariant
                first <= last,
                step == interval_of(cadence),
                0 <= k,
                first <= current <= last,
                forall|j: int| 0 <= j < targets@.len() ==> #[trigger] targets@[j] == first + j * step,
                forall|j: int| 0 <= j < targets@.len() ==> first <= #[trigger] targets@[j] <= last,
                forall|j: int, n: int|
                    0 <= j < n < targets@.len() ==> #[trigger] targets@[j] + step <= #[trigger] targets@[n],
                forall|j: int| 0 <= j < k ==> #[trigger] targets@[j] + step <= current,
            ensures
                targets@.len() == grid_len(first as int, last as int, step as int),
                targets@.len() > 0,
                targets@[targets@.len() - 1] + step > last,
            decreases last - current,
        {
            targets.push(current);
            let next = current.checked_add(step);
            proof {
                assert(first + (k + 1) * step == first + k * step + step) by (nonlinear_arith);
            }
            match next {
                Some(value) => {
                    if value <= last {
                        current = value;
                        proof {
                            k = k + 1;
                        }
                        continue;
                    }
                },
                None => {},
            }
            proof {
                let steps = k;
                assert(steps * step <= last - first < (steps + 1) * step);
                assert((last - first) / (step as int) == steps) by (nonlinear_arith)
                    requires
                        steps * step <= last - first < (steps + 1) * step,
                        step > 0,
                ;
            }
            break;
        }
    }
    proof {
        assert(targets@ =~= grid);
    }
    if targets.len() == 0 || targets[targets.len() - 1] != last {
        targets.push(last);
    }
    targets
}

/// The time between two moments, in seconds.
pub open spec fn distance(a: int, b: int) -> int {
    if a <= b {
        b - a
    } else {
        a - b
    }
}

/// Whether the revision at `at` is the one nearest in time to `target`: no
/// revision is nearer, and no revision before it is as near.
pub open spec fn is_nearest(stamps: Seq<i64>, target: int, at: int) -> bool {
    &&& 0 <= at < stamps.len()
    &&& forall|j: int|
        0 <= j < stamps.len() ==> distance(stamps[at] as int, target) <= distance(
            #[trigger] stamps[j] as int,
            target,
        )
    &&& forall|j: int|
        0 <= j < at ==> distance(stamps[at] as int, target) < distance(
            #[trigger] stamps[j] as int,
            target,
        )
}

/// The position of the revision nearest in time to `target`.
pub open spec fn nearest(stamps: Seq<i64>, target: int) -> int {
    choose|at: int| is_nearest(stamps, target, at)
}

/// Whether no timestamp is smaller than one before it.
pub open spec fn ascending_stamps(stamps: Seq<i64>) -> bool {
    forall|i: int, j: int| 0 <= i < j < stamps.len() ==> #[trigger] stamps[i] <= #[trigger] stamps[j]
}

/// However the nearest revision is looked for, by a search for each target
/// or by one scan for all of them, it is the same revision: two positions
/// that are both nearest to a target are one position.
pub proof fn lemma_nearest_is_unique(stamps: Seq<i64>, target: int, one: int, other: int)
    requires
        is_nearest(stamps, target, one),
        is_nearest(stamps, target, other),
    ensures
        one == other,
{
    if one < other {
        assert(distance(stamps[other] as int, target) < distance(stamps[one] as int, target));
    } else if other < one {
        assert(distance(stamps[one] as int, target) < distance(stamps[other] as int, target));
    }
}

/// Among the first `count` revisions one is nearest to `target`.
proof fn nearest_among(stamps: Seq<i64>, target: int, count: int) -> (at: int)
    requires
        0 < count <= stamps.len(),
    ensures
        0 <= at < count,
        forall|j: int|
            0 <= j < count ==> distance(stamps[at] as int, target) <= distance(
                #[trigger] stamps[j] as int,
                target,
            ),
        forall|j: int|
            0 <= j < at ==> distance(stamps[at] as int, target) < distance(
                #[trigger] stamps[j] as int,
                target,
            ),
    decreases count,
{
    if count == 1 {
        0
    } else {
        let before = nearest_among(stamps, target, count - 1);
        if distance(stamps[count - 1] as int, target) < distance(stamps[before] as int, target) {
            count - 1
        } else {
            before
        }
    }
}

/// Every history has a revision nearest to a target, and `nearest` names it.
pub proof fn lemma_nearest_exists(stamps: Seq<i64>, target: int)
    requires
        stamps.len() > 0,
    ensures
        is_nearest(stamps, target, nearest(stamps, target)),
{
    let at = nearest_among(stamps, target, stamps.len() as int);
    assert(is_nearest(stamps, target, at));
}

/// The timestamps of records, one by one.
pub open spec fn record_stamps(records: Seq<RevisionRecord>) -> Seq<i64> {
    stamps_of(views_of(records))
}

/// The number of leading records that are not after `target`.
fn count_up_to(records: &Vec<RevisionRecord>, target: i64) -> (count: usize)
    requires
        ascending_stamps(record_stamps(records@)),
    ensures
        count <= records@.len(),
        forall|i: int| 0 <= i < count ==> (#[trigger] records@[i]).timestamp <= target,
        forall|i: int| count <= i < records@.len() ==> (#[trigger] records@[i]).timestamp > target,
{
    let ghost stamps = record_stamps(records@);
    let mut low: usize = 0;
    let mut high: usize = records.len();
    while low < high
        invariant
            low <= high <= records@.len(),
            stamps == record_stamps(records@),
            ascending_stamps(stamps),
            forall|i: int| 0 <= i < low ==> (#[trigger] records@[i]).timestamp <= target,
            forall|i: int| high <= i < records@.len() ==> (#[trigger] records@[i]).timestamp > target,
        decreases high - low,
    {
        let middle = low + (high - low) / 2;
        if records[middle].timestamp <= target {
            proof {
                assert forall|i: int| 0 <= i < middle + 1 implies (#[trigger] records@[i]).timestamp
                    <= target by {
                    assert(stamps[i] <= stamps[middle as int]);
                }
            }
            low = middle + 1;
        } else {
            proof {
                assert forall|i: int| middle <= i < records@.len() implies (
                #[trigger] records@[i]).timestamp > target by {
                    assert(stamps[middle as int] <= stamps[i]);
                }
            }
            high = middle;
        }
    }
    low
}

/// The number of leading records that are before `moment`.
fn count_before(records: &Vec<RevisionRecord>, moment: i64) -> (count: usize)
    requires
        ascending_stamps(record_stamps(records@)),
    ensures
        count <= records@.len(),
        forall|i: int| 0 <= i < count ==> (#[trigger] records@[i]).timestamp < moment,
        forall|i: int| count <= i < records@.len() ==> (#[trigger] records@[i]).timestamp >= moment,
{
    let ghost stamps = record_stamps(records@);
    let mut low: usize = 0;
    let mut high: usize = records.len();
    while low < high
        invariant
            low <= high <= records@.len(),
            stamps == record_stamps(records@),
            ascending_stamps(stamps),
            forall|i: int| 0 <= i < low ==> (#[trigger] records@[i]).timestamp < moment,
            forall|i: int| high <= i < records@.len() ==> (#[trigger] records@[i]).timestamp >= moment,
        decreases high - low,
    {
        let middle = low + (high - low) / 2;
        if records[middle].timestamp < moment {
            proof {
                assert forall|i: int| 0 <= i < middle + 1 implies (#[trigger] records@[i]).timestamp
                    < moment by {
                    assert(stamps[i] <= stamps[middle as int]);
                }
            }
            low = middle + 1;
        } else {
            proof {
                assert forall|i: int| middle <= i < records@.len() implies (
                #[trigger] records@[i]).timestamp >= moment by {
                    assert(stamps[middle as int] <= stamps[i]);
                }
            }
            high = middle;
        }
    }
    low
}

/// Picks the nearest revision between the two that frame the target: the
/// first of the revisions that share the last timestamp not after the
/// target, at `run`, and the first revision after the target, at `count`.
fn pick_nearest(records: &Vec<RevisionRecord>, target: i64, count: usize, run: usize) -> (at: usize)
    requires
        records@.len() > 0,
        ascending_stamps(record_stamps(records@)),
        count <= records@.len(),
        forall|i: int| 0 <= i < count ==> (#[trigger] records@[i]).timestamp <= target,
        forall|i: int| count <= i < records@.len() ==> (#[trigger] records@[i]).timestamp > target,
        count > 0 ==> run < count && records@[run as int].timestamp == records@[count - 1].timestamp,
        forall|i: int| 0 <= i < run ==> (#[trigger] records@[i]).timestamp < records@[run as int].timestamp,
    ensures
        is_nearest(record_stamps(records@), target as int, at as int),
{
    let ghost stamps = record_stamps(records@);
    proof {
        assert forall|i: int| 0 <= i < stamps.len() implies #[trigger] stamps[i] == records@[i].timestamp by {}
    }
    let at = if count == 0 {
        0
    } else if count == records.len() {
        run
    } else {
        let below: i128 = target as i128 - records[count - 1].timestamp as i128;
        let above: i128 = records[count].timestamp as i128 - target as i128;
        if below <= above {
            run
        } else {
            count
        }
    };
    proof {
        assert forall|j: int| 0 <= j < stamps.len() implies distance(stamps[at as int] as int, target as int)
            <= distance(#[trigger] stamps[j] as int, target as int) by {
            assert(stamps[j] == records@[j].timestamp);
            if count > 0 {
                assert(stamps[count - 1] == records@[count - 1].timestamp);
                if j < count {
                    assert(stamps[j] <= stamps[count - 1]);
                }
            }
            if count < stamps.len() {
                assert(stamps[count as int] == records@[count as int].timestamp);
                if j >= count {
                    assert(stamps[count as int] <= stamps[j]);
                }
            }
        }
        assert forall|j: int| 0 <= j < at implies distance(stamps[at as int] as int, target as int)
            < distance(#[trigger] stamps[j] as int, target as int) by {
            assert(stamps[j] == records@[j].timestamp);
            if at == count {
                assert(stamps[j] <= stamps[count - 1]);
            }
        }
    }
    at
}

/// The position of the revision nearest to `target`, found by binary
/// search.
pub fn nearest_by_search(index: &HistoryIndex, target: i64) -> (at: usize)
    ensures
        is_nearest(stamps_of(index@), target as int, at as int),
        at == nearest(stamps_of(index@), target as int),
{
    let records = index.records();
    let ghost stamps = record_stamps(records@);
    proof {
        assert forall|i: int, j: int| 0 <= i < j < stamps.len() implies #[trigger] stamps[i]
            <= #[trigger] stamps[j] by {
            assert(index@[i].timestamp <= index@[j].timestamp);
        }
    }
    let count = count_up_to(records, target);
    let run = if count > 0 {
        count_before(records, records[count - 1].timestamp)
    } else {
        0
    };
    proof {
        if count > 0 {
            assert(records@[count - 1].timestamp <= target);
            assert(run <= count - 1);
            assert(stamps[run as int] <= stamps[count - 1]);
            assert(records@[run as int].timestamp >= records@[count - 1].timestamp);
        }
    }
    let at = pick_nearest(records, target, count, run);
    proof {
        lemma_nearest_exists(stamps, target as int);
        lemma_nearest_is_unique(stamps, target as int, at as int, nearest(stamps, target as int));
    }
    at
}

/// The positions of the revisions nearest to each of `targets`, found in one
/// scan of the history that moves forward as long as the targets ascend.
pub fn nearest_by_scan(index: &HistoryIndex, targets: &Vec<i64>) -> (found: Vec<usize>)
    ensures
        found@.len() == targets@.len(),
        forall|k: int|
            0 <= k < found@.len() ==> is_nearest(
                stamps_of(index@),
                targets@[k] as int,
                #[trigger] found@[k] as int,
            ),
        forall|k: int|
            0 <= k < found@.len() ==> #[trigger] found@[k] == nearest(
                stamps_of(index@),
                targets@[k] as int,
            ),
{
    let records = index.records();
    let ghost stamps = record_stamps(records@);
    proof {
        assert forall|i: int, j: int| 0 <= i < j < stamps.len() implies #[trigger] stamps[i]
            <= #[trigger] stamps[j] by {
            assert(index@[i].timestamp <= index@[j].timestamp);
        }
    }
    let total = records.len();
    let mut found: Vec<usize> = Vec::new();
    let mut count: usize = 0;
    let mut run: usize = 0;
    let mut k: usize = 0;
    while k < targets.len()
        invariant
            total == records@.len(),
            total > 0,
            stamps == record_stamps(records@),
            stamps == stamps_of(index@),
            ascending_stamps(stamps),
            k <= targets@.len(),
            count <= total,
            k == 0 ==> count == 0,
            k > 0 ==> forall|i: int| 0 <= i < count ==> (#[trigger] records@[i]).timestamp <= targets@[k - 1],
            count == 0 ==> run == 0,
            count > 0 ==> run < count && records@[run as int].timestamp == records@[count - 1].timestamp,
            forall|i: int| 0 <= i < run ==> (#[trigger] records@[i]).timestamp < records@[run as int].timestamp,
            found@.len() == k,
            forall|n: int| 0 <= n < k ==> is_nearest(stamps, targets@[n] as int, #[trigger] found@[n] as int),
            forall|n: int| 0 <= n < k ==> #[trigger] found@[n] == nearest(stamps, targets@[n] as int),
        decreases targets@.len() - k,
    {
        let target = targets[k];
        if k > 0 && target < targets[k - 1] {
            count = 0;
            run = 0;
        }
        while count < total && records[count].timestamp <= target
            invariant
                total == records@.len(),
                stamps == record_stamps(records@),
                ascending_stamps(stamps),
                count <= total,
                forall|i: int| 0 <= i < count ==> (#[trigger] records@[i]).timestamp <= target,
                count == 0 ==> run == 0,
                count > 0 ==> run < count && records@[run as int].timestamp == records@[count
                    - 1].timestamp,
                forall|i: int| 0 <= i < run ==> (#[trigger] records@[i]).timestamp < records@[run as int].timestamp,
            decreases total - count,
        {
            if count == 0 || records[count].timestamp != records[count - 1].timestamp {
                proof {
                    assert forall|i: int| 0 <= i < count implies (#[trigger] records@[i]).timestamp
                        < records@[count as int].timestamp by {
                        assert(stamps[i] <= stamps[count - 1]);
                        assert(stamps[count - 1] <= stamps[count as int]);
                    }
                }
                run = count;
            }
            count = count + 1;
        }
        proof {
            assert forall|i: int| count <= i < records@.len() implies (#[trigger] records@[i]).timestamp
                > target by {
                assert(stamps[count as int] <= stamps[i]);
            }
        }
        let at = pick_nearest(records, target, count, run);
        proof {
            lemma_nearest_exists(stamps, target as int);
            lemma_nearest_is_unique(stamps, target as int, at as int, nearest(stamps, target as int));
        }
        found.push(at);
        k = k + 1;
    }
    found
}

/// A date at which the history is sampled, and the revision that stands for
/// it.
#[derive(Clone, Debug, PartialEq, Eq)]
pub struct SamplePoint {
    /// The date.
    pub date: CalendarDate,
    /// The id of the revision.
    pub revision: String,
}

/// What a sample point stands for: a day, counted from the epoch, and a
/// revision id.
pub struct SampleView {
    /// The day of the date, counted from the epoch.
    pub day: int,
    /// The characters of the revision's id.
    pub revision: Seq<char>,
}

impl View for SamplePoint {
    type V = SampleView;

    open spec fn view(&self) -> SampleView {
        SampleView { day: self.date.days as int, revision: self.revision@ }
    }
}

/// What sample points stand for, one by one.
pub open spec fn sample_views(samples: Seq<SamplePoint>) -> Seq<SampleView> {
    Seq::new(samples.len(), |i: int| samples[i]@)
}

/// The sample for a target moment: the day on which the moment falls, and
/// the revision nearest to the moment.
pub open spec fn sample_at(history: Seq<RevisionView>, target: i64) -> SampleView {
    SampleView {
        day: day_of(target as int),
        revision: history[nearest(stamps_of(history), target as int)].id,
    }
}

/// The targets, one for each day: where the last two fall on one day, the
/// last one stays and the one before it leaves.
pub open spec fn one_per_day(targets: Seq<i64>) -> Seq<i64> {
    if targets.len() >= 2 && day_of(targets[targets.len() - 2] as int) == day_of(
        targets[targets.len() - 1] as int,
    ) {
        targets.remove(targets.len() - 2)
    } else {
        targets
    }
}

/// The plan for a history at a cadence: one sample for each day on which a
/// target falls, in the order of the days.
pub open spec fn plan_of(history: Seq<RevisionView>, cadence: Cadence) -> Seq<SampleView> {
    let targets = one_per_day(
        targets_of(history[0].timestamp, history[history.len() - 1].timestamp, interval_of(cadence)),
    );
    Seq::new(targets.len(), |k: int| sample_at(history, targets[k]))
}

/// Whether `id` is the id of a revision of the history.
pub open spec fn is_revision_of(history: Seq<RevisionView>, id: Seq<char>) -> bool {
    exists|at: int| 0 <= at < history.len() && (#[trigger] history[at]).id == id
}

/// Plans the samples of a history, by the cadence that is forced or else by
/// the one that fits the history's span. The dates ascend, no date comes
/// twice, and the last date is that of the newest revision.
pub fn plan_samples(index: &HistoryIndex, forced: Option<Cadence>) -> (samples: Vec<SamplePoint>)
    ensures
        sample_views(samples@) == plan_of(
            index@,
            cadence_of(
                forced,
                index@[0].timestamp as int,
                index@[index@.len() - 1].timestamp as int,
            ),
        ),
        samples@.len() > 0,
        forall|j: int, k: int|
            0 <= j < k < samples@.len() ==> (#[trigger] samples@[j]).date.days < (
            #[trigger] samples@[k]).date.days,
        samples@[samples@.len() - 1].date.days == day_of(index@[index@.len() - 1].timestamp as int),
        forall|k: int| 0 <= k < samples@.len() ==> is_revision_of(index@, (#[trigger] samples@[k]).revision@),
{
    let records = index.records();
    let total = records.len();
    let first = records[0].timestamp;
    let last = records[total - 1].timestamp;
    proof {
        assert(views_of(records@)[0] == records@[0]@);
        assert(views_of(records@)[total - 1] == records@[total - 1]@);
    }
    let cadence = select_cadence(forced, first, last);
    let targets = sample_targets(first, last, cadence);
    let found = nearest_by_scan(index, &targets);
    let count = targets.len();
    let merge_last = count >= 2 && day_number(targets[count - 2]) == day_number(targets[count - 1]);
    let ghost kept = one_per_day(targets@);
    let ghost history = index@;
    let mut samples: Vec<SamplePoint> = Vec::new();
    let mut k: usize = 0;
    while k < count
        invariant
            count == targets@.len(),
            count > 0,
            found@.len() == count,
            total == records@.len(),
            views_of(records@) == history,
            history == index@,
            k <= count,
            merge_last == (count >= 2 && day_of(targets@[count - 2] as int) == day_of(
                targets@[count - 1] as int,
            )),
            kept == one_per_day(targets@),
            samples@.len() == if merge_last && k > count - 2 {
                k - 1
            } else {
                k as int
            },
            forall|n: int|
                0 <= n < found@.len() ==> is_nearest(
                    stamps_of(history),
                    targets@[n] as int,
                    #[trigger] found@[n] as int,
                ),
            forall|n: int|
                0 <= n < found@.len() ==> #[trigger] found@[n] == nearest(
                    stamps_of(history),
                    targets@[n] as int,
                ),
            forall|n: int| 0 <= n < samples@.len() ==> (#[trigger] samples@[n])@ == sample_at(history, kept[n]),
            forall|n: int| 0 <= n < samples@.len() ==> (#[trigger] samples@[n]).date.days == day_of(kept[n] as int),
            forall|n: int| 0 <= n < samples@.len() ==> is_revision_of(history, (#[trigger] samples@[n]).revision@),
        decreases count - k,
    {
        if !(merge_last && k == count - 2) {
            let target = targets[k];
            let at = found[k];
            proof {
                assert(is_nearest(stamps_of(history), targets@[k as int] as int, found@[k as int] as int));
                assert(history[at as int] == records@[at as int]@);
                assert(kept[samples@.len() as int] == target);
            }
            let sample = SamplePoint {
                date: CalendarDate { days: day_number(target) },
                revision: records[at].id.clone(),
            };
            proof {
                assert(history[at as int].id == sample.revision@);
            }
            samples.push(sample);
        }
        k = k + 1;
    }
    proof {
        assert(samples@.len() == kept.len());
        assert(sample_views(samples@) =~= Seq::new(kept.len(), |n: int| sample_at(history, kept[n])));
        assert forall|a: int, b: int| 0 <= a < b < samples@.len() implies (#[trigger] samples@[a]).date.days
            < (#[trigger] samples@[b]).date.days by {
            lemma_days_ascend(targets@, a, b);
        }
    }
    samples
}

/// The days of the targets that stay ascend: of two of them the later one
/// falls on a later day, where all but the last target are a day apart at
/// least and the last target is the latest.
proof fn lemma_days_ascend(targets: Seq<i64>, a: int, b: int)
    requires
        targets.len() > 0,
        forall|j: int, k: int| 0 <= j < k < targets.len() ==> #[trigger] targets[j] < #[trigger] targets[k],
        forall|j: int, k: int|
            0 <= j < k < targets.len() - 1 ==> #[trigger] targets[j] + 86_400 <= #[trigger] targets[k],
        0 <= a < b < one_per_day(targets).len(),
    ensures
        day_of(one_per_day(targets)[a] as int) < day_of(one_per_day(targets)[b] as int),
{
    let count = targets.len() as int;
    let kept = one_per_day(targets);
    let merged = count >= 2 && day_of(targets[count - 2] as int) == day_of(targets[count - 1] as int);
    if merged {
        assert(kept.len() == count - 1);
        assert(kept[a] == targets[a]);
        if b == count - 2 {
            assert(kept[b] == targets[count - 1]);
            assert(targets[a] + 86_400 <= targets[count - 2]);
        } else {
            assert(kept[b] == targets[b]);
            assert(targets[a] + 86_400 <= targets[b]);
        }
    } else {
        assert(kept == targets);
        if b == count - 1 {
            assert(targets[count - 2] < targets[count - 1]);
            if a < count - 2 {
                assert(targets[a] + 86_400 <= targets[count - 2]);
            }
        } else {
            assert(targets[a] + 86_400 <= targets[b]);
        }
    }
}

/// The targets of a history that does not run backwards: there is one at
/// least, the last of them is the time of the newest revision, they ascend,
/// and all but the last are a step apart.
proof fn lemma_targets_ascend(first: i64, last: i64, step: int)
    requires
        first <= last,
        step >= 86_400,
    ensures
        targets_of(first, last, step).len() > 0,
        targets_of(first, last, step)[targets_of(first, last, step).len() - 1] == last,
        forall|j: int, k: int|
            0 <= j < k < targets_of(first, last, step).len() ==> #[trigger] targets_of(
                first,
                last,
                step,
            )[j] < #[trigger] targets_of(first, last, step)[k],
        forall|j: int, k: int|
            0 <= j < k < targets_of(first, last, step).len() - 1 ==> #[trigger] targets_of(
                first,
                last,
                step,
            )[j] + 86_400 <= #[trigger] targets_of(first, last, step)[k],
{
    let span = last - first;
    let steps = span / step;
    assert(0 <= steps && steps * step <= span < steps * step + step) by (nonlinear_arith)
        requires
            span >= 0,
            step > 0,
            steps == span / step,
    ;
    let grid = Seq::new(
        grid_len(first as int, last as int, step),
        |k: int| (first + k * step) as i64,
    );
    assert forall|k: int| 0 <= k < grid.len() implies #[trigger] grid[k] == first + k * step && first
        <= grid[k] <= last by {
        assert(0 <= k * step <= steps * step) by (nonlinear_arith)
            requires
                0 <= k <= steps,
                step > 0,
        ;
    }
    assert forall|j: int, k: int| 0 <= j < k < grid.len() implies #[trigger] grid[j] + step
        <= #[trigger] grid[k] by {
        assert(j * step + step <= k * step) by (nonlinear_arith)
            requires
                j < k,
                step > 0,
        ;
    }
    let targets = targets_of(first, last, step);
    assert forall|j: int, k: int| 0 <= j < k < targets.len() implies #[trigger] targets[j]
        < #[trigger] targets[k] by {
        if k < grid.len() {
            assert(grid[j] + step <= grid[k]);
        } else {
            assert(grid[grid.len() - 1] == first + steps * step);
            if j < grid.len() - 1 {
                assert(grid[j] + step <= grid[grid.len() - 1]);
            }
        }
    }
    assert forall|j: int, k: int| 0 <= j < k < targets.len() - 1 implies #[trigger] targets[j]
        + 86_400 <= #[trigger] targets[k] by {
        assert(grid[j] + step <= grid[k]);
    }
}

/// Whatever the history and the cadence, the plan holds a sample, its dates
/// ascend so that no date comes twice, and its last date is that of the
/// newest revision.
pub proof fn lemma_plan_dates_ascend(history: Seq<RevisionView>, cadence: Cadence)
    requires
        is_history(history),
    ensures
        plan_of(history, cadence).len() > 0,
        forall|j: int, k: int|
            0 <= j < k < plan_of(history, cadence).len() ==> (#[trigger] plan_of(
                history,
                cadence,
            )[j]).day < (#[trigger] plan_of(history, cadence)[k]).day,
        plan_of(history, cadence)[plan_of(history, cadence).len() - 1].day == day_of(
            history[history.len() - 1].timestamp as int,
        ),
{
    let first = history[0].timestamp;
    let last = history[history.len() - 1].timestamp;
    let targets = targets_of(first, last, interval_of(cadence));
    lemma_targets_ascend(first, last, interval_of(cadence));
    let kept = one_per_day(targets);
    let plan = plan_of(history, cadence);
    assert forall|j: int, k: int| 0 <= j < k < plan.len() implies (#[trigger] plan[j]).day < (
    #[trigger] plan[k]).day by {
        lemma_days_ascend(targets, j, k);
    }
}

} // verus!
