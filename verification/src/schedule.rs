//! The measurement scheduler: which sample is measured next while no more
//! than a bounded number are under way, and the slots that put the results
//! back into the order of the samples however the measurements end.

use vstd::prelude::*;
use crate::calendar::CalendarDate;
use crate::error::{MeasurementFault, PipelineError};
use crate::measure::SizeMeasurement;
use crate::planner::SamplePoint;

verus! {

/// The state of the measurement of one sample.
#[derive(Clone, Copy, Debug, PartialEq, Eq)]
pub enum Slot {
    /// Not yet handed to a worker.
    Waiting,
    /// With a worker.
    Running,
    /// Measured, with these sizes.
    Done { packed_size: u64, uncompressed_size: Option<u64> },
    /// Ended in a failure.
    Failed,
}

/// What a scheduler stands for.
pub struct SchedulerView {
    /// The dates of the samples, in their order.
    pub dates: Seq<CalendarDate>,
    /// The slot of each sample.
    pub slots: Seq<Slot>,
    /// The most measurements that may be under way at once.
    pub limit: nat,
    /// The position of the next sample to hand out.
    pub next: nat,
    /// The failure that was reported first, if any was.
    pub failure: Option<PipelineError>,
}

/// How many measurements are under way.
pub open spec fn running_count(slots: Seq<Slot>) -> nat
    decreases slots.len(),
{
    if slots.len() == 0 {
        0
    } else {
        running_count(slots.drop_last()) + if slots.last() is Running {
            1nat
        } else {
            0nat
        }
    }
}

/// The state before any sample is handed out.
pub open spec fn initial(dates: Seq<CalendarDate>, parallelism: nat) -> SchedulerView {
    SchedulerView {
        dates,
        slots: Seq::new(dates.len(), |i: int| Slot::Waiting),
        limit: if parallelism == 0 {
            1
        } else {
            parallelism
        },
        next: 0,
        failure: None,
    }
}

/// Whether a sample can be handed out: nothing has failed, a sample is
/// waiting, and a worker is free.
pub open spec fn can_dispatch(state: SchedulerView) -> bool {
    &&& state.failure is None
    &&& state.next < state.slots.len()
    &&& running_count(state.slots) < state.limit
}

/// The state after the next sample was handed out.
pub open spec fn dispatched(state: SchedulerView) -> SchedulerView {
    if can_dispatch(state) {
        SchedulerView {
            slots: state.slots.update(state.next as int, Slot::Running),
            next: state.next + 1,
            ..state
        }
    } else {
        state
    }
}

/// The state after the measurement of the sample at `at` ended with
/// `outcome`. A measurement that is not under way changes nothing; of
/// several failures the first one reported stays.
pub open spec fn completed(
    state: SchedulerView,
    at: int,
    outcome: Result<(u64, Option<u64>), PipelineError>,
) -> SchedulerView {
    if 0 <= at < state.slots.len() && state.slots[at] is Running {
        match outcome {
            Ok(sizes) => SchedulerView {
                slots: state.slots.update(
                    at,
                    Slot::Done { packed_size: sizes.0, uncompressed_size: sizes.1 },
                ),
                ..state
            },
            Err(fault) => SchedulerView {
                slots: state.slots.update(at, Slot::Failed),
                failure: if state.failure is None {
                    Some(fault)
                } else {
                    state.failure
                },
                ..state
            },
        }
    } else {
        state
    }
}

/// Whether every sample is measured.
pub open spec fn all_done(state: SchedulerView) -> bool {
    forall|i: int| 0 <= i < state.slots.len() ==> #[trigger] state.slots[i] is Done
}

/// The measurement in the slot at `at`, under the date of the sample at
/// `at`.
pub open spec fn measurement_at(state: SchedulerView, at: int) -> SizeMeasurement {
    SizeMeasurement {
        date: state.dates[at],
        packed_size: state.slots[at]->packed_size,
        uncompressed_size: state.slots[at]->uncompressed_size,
    }
}

/// What the run gives: the first failure where there was one, the
/// measurements in the order of the samples where every sample is measured,
/// and else the report that a measurement is missing.
pub open spec fn outcome_of(state: SchedulerView) -> Result<Seq<SizeMeasurement>, PipelineError> {
    match state.failure {
        Some(fault) => Err(fault),
        None => if all_done(state) {
            Ok(Seq::new(state.slots.len(), |i: int| measurement_at(state, i)))
        } else {
            Err(PipelineError::MeasurementFailure(MeasurementFault::Missing))
        },
    }
}

/// Whether the parts of a state fit together: a slot for each sample, the
/// samples handed out being those before `next`, and no more under way than
/// the limit allows.
pub open spec fn is_consistent(state: SchedulerView) -> bool {
    &&& state.slots.len() == state.dates.len()
    &&& state.limit >= 1
    &&& state.next <= state.slots.len()
    &&& running_count(state.slots) <= state.limit
    &&& forall|i: int| state.next <= i < state.slots.len() ==> #[trigger] state.slots[i] is Waiting
    &&& forall|i: int| 0 <= i < state.next ==> !(#[trigger] state.slots[i] is Waiting)
}

/// Changing one slot changes the count of those under way by that slot
/// alone.
pub proof fn lemma_running_count_update(slots: Seq<Slot>, at: int, slot: Slot)
    requires
        0 <= at < slots.len(),
    ensures
        running_count(slots.update(at, slot)) + (if slots[at] is Running {
            1nat
        } else {
            0nat
        }) == running_count(slots) + (if slot is Running {
            1nat
        } else {
            0nat
        }),
    decreases slots.len(),
{
    let changed = slots.update(at, slot);
    if at == slots.len() - 1 {
        assert(changed.drop_last() =~= slots.drop_last());
    } else {
        assert(changed.drop_last() =~= slots.drop_last().update(at, slot));
        lemma_running_count_update(slots.drop_last(), at, slot);
    }
}

/// Where no slot is under way the count is 0.
pub proof fn lemma_running_count_none(slots: Seq<Slot>)
    requires
        forall|i: int| 0 <= i < slots.len() ==> !(#[trigger] slots[i] is Running),
    ensures
        running_count(slots) == 0,
    decreases slots.len(),
{
    if slots.len() > 0 {
        lemma_running_count_none(slots.drop_last());
    }
}

/// Handing out a sample and ending a measurement keep a state consistent.
pub proof fn lemma_steps_keep_consistency(
    state: SchedulerView,
    at: int,
    outcome: Result<(u64, Option<u64>), PipelineError>,
)
    requires
        is_consistent(state),
    ensures
        is_consistent(dispatched(state)),
        is_consistent(completed(state, at, outcome)),
{
    if can_dispatch(state) {
        lemma_running_count_update(state.slots, state.next as int, Slot::Running);
    }
    if 0 <= at < state.slots.len() && state.slots[at] is Running {
        match outcome {
            Ok(sizes) => {
                lemma_running_count_update(
                    state.slots,
                    at,
                    Slot::Done { packed_size: sizes.0, uncompressed_size: sizes.1 },
                );
            },
            Err(fault) => {
                lemma_running_count_update(state.slots, at, Slot::Failed);
            },
        }
    }
}

/// The order in which measurements end does not matter: two measurements
/// that end well leave the same state whichever ends first.
pub proof fn lemma_completion_order_is_immaterial(
    state: SchedulerView,
    one: int,
    one_sizes: (u64, Option<u64>),
    other: int,
    other_sizes: (u64, Option<u64>),
)
    requires
        one != other,
    ensures
        completed(
            completed(state, one, Ok::<(u64, Option<u64>), PipelineError>(one_sizes)),
            other,
            Ok::<(u64, Option<u64>), PipelineError>(other_sizes),
        ) == completed(
            completed(state, other, Ok::<(u64, Option<u64>), PipelineError>(other_sizes)),
            one,
            Ok::<(u64, Option<u64>), PipelineError>(one_sizes),
        ),
{
    let first = completed(state, one, Ok::<(u64, Option<u64>), PipelineError>(one_sizes));
    let second = completed(state, other, Ok::<(u64, Option<u64>), PipelineError>(other_sizes));
    let left = completed(first, other, Ok::<(u64, Option<u64>), PipelineError>(other_sizes));
    let right = completed(second, one, Ok::<(u64, Option<u64>), PipelineError>(one_sizes));
    assert(left.slots =~= right.slots);
}

/// The measurements that a run gives keep the order of the samples: there
/// is one for each sample, and each stands under the date of its sample with
/// the sizes of its slot.
pub proof fn lemma_results_keep_sample_order(state: SchedulerView)
    requires
        is_consistent(state),
        outcome_of(state) is Ok,
    ensures
        outcome_of(state)->Ok_0.len() == state.dates.len(),
        forall|i: int|
            0 <= i < state.dates.len() ==> (#[trigger] outcome_of(state)->Ok_0[i]).date
                == state.dates[i],
        forall|i: int|
            0 <= i < state.dates.len() ==> state.slots[i] == (Slot::Done {
                packed_size: (#[trigger] outcome_of(state)->Ok_0[i]).packed_size,
                uncompressed_size: outcome_of(state)->Ok_0[i].uncompressed_size,
            }),
{
}

/// Ending a measurement leaves the dates of the samples, and the slots of
/// all other samples, as they were: a result can only land under the date of
/// its own sample.
pub proof fn lemma_completion_keeps_other_slots(
    state: SchedulerView,
    at: int,
    outcome: Result<(u64, Option<u64>), PipelineError>,
)
    ensures
        completed(state, at, outcome).dates == state.dates,
        completed(state, at, outcome).slots.len() == state.slots.len(),
        forall|i: int|
            0 <= i < state.slots.len() && i != at ==> #[trigger] completed(state, at, outcome).slots[i]
                == state.slots[i],
{
}

/// The dates of sample points, one by one.
pub open spec fn dates_of(samples: Seq<SamplePoint>) -> Seq<CalendarDate> {
    Seq::new(samples.len(), |i: int| samples[i].date)
}

/// The scheduler of one run. It decides which sample is measured next and
/// keeps each result in the slot of its sample; the caller runs the
/// measurements and reports how each ended.
pub struct Scheduler {
    dates: Vec<CalendarDate>,
    slots: Vec<Slot>,
    limit: usize,
    next: usize,
    running: usize,
    failure: Option<PipelineError>,
}

impl View for Scheduler {
    type V = SchedulerView;

    closed spec fn view(&self) -> SchedulerView {
        SchedulerView {
            dates: self.dates@,
            slots: self.slots@,
            limit: self.limit as nat,
            next: self.next as nat,
            failure: self.failure,
        }
    }
}

impl Scheduler {
    /// What holds of every scheduler: its parts fit together, and its count
    /// of the measurements under way is right.
    #[verifier::type_invariant]
    pub closed spec fn sound(&self) -> bool {
        is_consistent(self@) && self.running == running_count(self.slots@)
    }

    /// A scheduler for `samples` with at most `parallelism` measurements
    /// under way at once; a bound of 0 counts as 1.
    pub fn new(samples: &Vec<SamplePoint>, parallelism: usize) -> (scheduler: Scheduler)
        ensures
            scheduler@ == initial(dates_of(samples@), parallelism as nat),
            is_consistent(scheduler@),
    {
        let mut dates: Vec<CalendarDate> = Vec::new();
        let mut slots: Vec<Slot> = Vec::new();
        let mut i: usize = 0;
        while i < samples.len()
            invariant
                i <= samples@.len(),
                dates@.len() == i,
                slots@.len() == i,
                forall|k: int| 0 <= k < i ==> #[trigger] dates@[k] == samples@[k].date,
                forall|k: int| 0 <= k < i ==> #[trigger] slots@[k] is Waiting,
            decreases samples@.len() - i,
        {
            dates.push(samples[i].date);
            slots.push(Slot::Waiting);
            i = i + 1;
        }
        let limit = if parallelism == 0 {
            1
        } else {
            parallelism
        };
        proof {
            lemma_running_count_none(slots@);
            assert(dates@ =~= dates_of(samples@));
            assert(slots@ =~= Seq::new(dates@.len(), |i: int| Slot::Waiting));
        }
        Scheduler { dates, slots, limit, next: 0, running: 0, failure: None }
    }

    /// How many samples there are.
    pub fn len(&self) -> (count: usize)
        ensures
            count == self@.slots.len(),
            count == self@.dates.len(),
            is_consistent(self@),
    {
        proof {
            use_type_invariant(self);
        }
        self.slots.len()
    }

    /// How many measurements are under way; never more than the limit.
    pub fn running(&self) -> (count: usize)
        ensures
            count == running_count(self@.slots),
            count <= self@.limit,
    {
        proof {
            use_type_invariant(self);
        }
        self.running
    }

    /// The failure that was reported first, if any was.
    pub fn failure(&self) -> (failure: Option<PipelineError>)
        ensures
            failure == self@.failure,
    {
        self.failure
    }

    /// Whether the run has come to rest: nothing is under way, and nothing
    /// is left to hand out or a failure forbids it.
    pub fn is_settled(&self) -> (settled: bool)
        ensures
            settled == (running_count(self@.slots) == 0 && (self@.failure is Some || self@.next
                == self@.slots.len())),
    {
        proof {
            use_type_invariant(self);
        }
        self.running == 0 && (self.failure.is_some() || self.next == self.slots.len())
    }

    /// Hands out the next sample where one can be handed out, and says
    /// which. After a failure no sample is handed out.
    pub fn dispatch(&mut self) -> (handed: Option<usize>)
        ensures
            final(self)@ == dispatched(old(self)@),
            handed == if can_dispatch(old(self)@) {
                Some(old(self)@.next as usize)
            } else {
                None::<usize>
            },
    {
        proof {
            use_type_invariant(&*self);
        }
        if self.failure.is_none() && self.next < self.slots.len() && self.running < self.limit {
            let at = self.next;
            let mut taken = Scheduler {
                dates: Vec::new(),
                slots: Vec::new(),
                limit: 1,
                next: 0,
                running: 0,
                failure: None,
            };
            core::mem::swap(self, &mut taken);
            let Scheduler { dates, mut slots, limit, next, running, failure } = taken;
            proof {
                lemma_running_count_update(slots@, at as int, Slot::Running);
            }
            slots.set(at, Slot::Running);
            *self = Scheduler { dates, slots, limit, next: next + 1, running: running + 1, failure };
            Some(at)
        } else {
            None
        }
    }

    /// Takes the end of the measurement of the sample at `at`, and says
    /// whether that measurement was under way. One that was not changes
    /// nothing.
    pub fn complete(&mut self, at: usize, outcome: Result<(u64, Option<u64>), PipelineError>) -> (accepted:
        bool)
        ensures
            final(self)@ == completed(old(self)@, at as int, outcome),
            accepted == (at < old(self)@.slots.len() && old(self)@.slots[at as int] is Running),
    {
        proof {
            use_type_invariant(&*self);
        }
        if at >= self.slots.len() {
            return false;
        }
        match self.slots[at] {
            Slot::Running => {},
            _ => {
                return false;
            },
        }
        let mut taken = Scheduler {
            dates: Vec::new(),
            slots: Vec::new(),
            limit: 1,
            next: 0,
            running: 0,
            failure: None,
        };
        core::mem::swap(self, &mut taken);
        let Scheduler { dates, mut slots, limit, next, running, failure } = taken;
        match outcome {
            Ok(sizes) => {
                let slot = Slot::Done { packed_size: sizes.0, uncompressed_size: sizes.1 };
                proof {
                    lemma_running_count_update(slots@, at as int, slot);
                }
                slots.set(at, slot);
                *self = Scheduler { dates, slots, limit, next, running: running - 1, failure };
            },
            Err(fault) => {
                proof {
                    lemma_running_count_update(slots@, at as int, Slot::Failed);
                }
                slots.set(at, Slot::Failed);
                let failure = if failure.is_none() {
                    Some(fault)
                } else {
                    failure
                };
                *self = Scheduler { dates, slots, limit, next, running: running - 1, failure };
            },
        }
        true
    }

    /// Ends the run: the first failure where there was one, else the
    /// measurements in the order of the samples, each under the date of its
    /// sample. Where a sample is not measured yet nothing is given out but
    /// the report that a measurement is missing.
    pub fn finish(self) -> (outcome: Result<Vec<SizeMeasurement>, PipelineError>)
        ensures
            match outcome_of(self@) {
                Ok(measurements) => outcome matches Ok(found) && found@ == measurements,
                Err(fault) => outcome == Err::<Vec<SizeMeasurement>, PipelineError>(fault),
            },
    {
        proof {
            use_type_invariant(&self);
        }
        match self.failure {
            Some(fault) => {
                return Err(fault);
            },
            None => {},
        }
        let ghost state = self@;
        let count = self.slots.len();
        let mut found: Vec<SizeMeasurement> = Vec::new();
        let mut i: usize = 0;
        while i < count
            invariant
                state == self@,
                state.failure is None,
                count == self.slots@.len(),
                count == self.dates@.len(),
                i <= count,
                found@.len() == i,
                forall|k: int| 0 <= k < i ==> #[trigger] self.slots@[k] is Done,
                forall|k: int| 0 <= k < i ==> #[trigger] found@[k] == measurement_at(state, k),
            decreases count - i,
        {
            match self.slots[i] {
                Slot::Done { packed_size, uncompressed_size } => {
                    found.push(
                        SizeMeasurement { date: self.dates[i], packed_size, uncompressed_size },
                    );
                },
                _ => {
                    return Err(PipelineError::MeasurementFailure(MeasurementFault::Missing));
                },
            }
            i = i + 1;
        }
        Ok(found)
    }
}

} // verus!
