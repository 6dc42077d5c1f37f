use git_size_history::calendar::CalendarDate;
use git_size_history::error::{MeasurementFault, PipelineError};
use git_size_history::history::build_index;
use git_size_history::measure::{
    after_disk_usage, after_pipeline, begin_measurement, BlobTally, FeederEnd, MeasureStep,
    PipelineReport, SizeMeasurement,
};
use git_size_history::planner::{plan_samples, Cadence};
use git_size_history::report::{csv_header, csv_row};
use git_size_history::schedule::Scheduler;

const DAY: i64 = 86_400;

/// Stands in for the queries: the sizes of a revision are drawn from its id.
fn measure(revision: &str, with_uncompressed: bool) -> Result<(u64, Option<u64>), PipelineError> {
    begin_measurement(revision)?;
    let weight = u64::from_str_radix(revision, 16).unwrap_or(0);
    let disk_usage = format!("{}\n", 1_000 + weight * 10);
    let packed_size = match after_disk_usage(true, disk_usage.as_bytes(), with_uncompressed)? {
        MeasureStep::Done { packed_size, uncompressed_size } => {
            return Ok((packed_size, uncompressed_size))
        }
        MeasureStep::SumBlobs { packed_size } => packed_size,
        MeasureStep::QueryDiskUsage => unreachable!(),
    };
    let mut tally = BlobTally::new();
    tally.absorb(b"c0ffee commit 200")?;
    tally.absorb(b"beef tree 64")?;
    tally.absorb(format!("f00d blob {}", weight * 7).as_bytes())?;
    let report = PipelineReport {
        output_read: true,
        feeder: FeederEnd::Finished,
        classifier_reaped: true,
        lister_reaped: true,
    };
    match after_pipeline(packed_size, &tally, &report)? {
        MeasureStep::Done { packed_size, uncompressed_size } => Ok((packed_size, uncompressed_size)),
        _ => unreachable!(),
    }
}

fn run(
    traversal: &[String],
    forced: Option<Cadence>,
    workers: usize,
    with_uncompressed: bool,
    mut seed: u64,
) -> Result<Vec<SizeMeasurement>, PipelineError> {
    let lines: Vec<Vec<u8>> = traversal.iter().map(|line| line.as_bytes().to_vec()).collect();
    let index = build_index(&lines)?;
    let samples = plan_samples(&index, forced);
    let mut scheduler = Scheduler::new(&samples, workers);
    let mut under_way: Vec<usize> = Vec::new();
    while !scheduler.is_settled() {
        while let Some(at) = scheduler.dispatch() {
            under_way.push(at);
        }
        seed = seed.wrapping_mul(6364136223846793005).wrapping_add(1442695040888963407);
        let at = under_way.swap_remove((seed >> 33) as usize % under_way.len());
        scheduler.complete(at, measure(&samples[at].revision, with_uncompressed));
    }
    scheduler.finish()
}

fn daily_commits(count: usize, start: i64) -> Vec<String> {
    (0..count).rev().map(|i| format!("{} {:x}", start + i as i64 * DAY, i + 1)).collect()
}

#[test]
fn one_commit_gives_one_measurement() {
    let t0 = 1_700_000_000;
    let found = run(&[format!("{} a1", t0)], None, 4, false, 1).unwrap();
    assert_eq!(found.len(), 1);
    assert_eq!(found[0].date, CalendarDate { days: 19_675 });
    assert!(found[0].packed_size > 0);
    assert_eq!(found[0].packed_size, 1_000 + 0xa1 * 10);
    assert_eq!(found[0].uncompressed_size, None);
}

#[test]
fn fifty_daily_commits_give_a_series_that_ends_with_the_last_commit() {
    let start = 1_700_000_000;
    let found = run(&daily_commits(50, start), Some(Cadence::Monthly), 2, true, 5).unwrap();
    assert!(found.len() >= 2);
    assert_eq!(found.len(), 3);
    assert_eq!(found[0].date.days, 19_675);
    assert_eq!(found[1].date.days, 19_705);
    assert_eq!(found[2].date.days, 19_675 + 49);
    assert_eq!(found[0].packed_size, 1_010);
    assert_eq!(found[1].packed_size, 1_000 + 31 * 10);
    assert_eq!(found[2].packed_size, 1_000 + 50 * 10);
    assert_eq!(found[2].uncompressed_size, Some(350));
}

#[test]
fn the_series_does_not_depend_on_workers_or_latencies() {
    let traversal = daily_commits(400, 1_500_000_000);
    let reference = run(&traversal, None, 1, true, 0).unwrap();
    assert_eq!(reference.len(), 15);
    for workers in [1, 2, 3, 8, 64] {
        for seed in 0..5 {
            assert_eq!(run(&traversal, None, workers, true, seed).unwrap(), reference);
        }
    }
}

#[test]
fn running_twice_gives_the_same_series() {
    let traversal = daily_commits(120, 1_600_000_000);
    let one = run(&traversal, None, 3, true, 11);
    let other = run(&traversal, None, 3, true, 11);
    assert_eq!(one, other);
    assert!(one.is_ok());
}

#[test]
fn the_table_lists_the_series_by_ascending_date() {
    let found = run(&daily_commits(50, 1_700_000_000), Some(Cadence::Monthly), 2, false, 5).unwrap();
    let mut table = vec![csv_header(false)];
    for measurement in &found {
        table.push(csv_row(measurement, false).unwrap());
    }
    assert_eq!(
        table,
        vec![
            vec!["date".to_string(), "cumulative-size".to_string()],
            vec!["2023-11-14".to_string(), "1010".to_string()],
            vec!["2023-12-14".to_string(), "1310".to_string()],
            vec!["2024-01-02".to_string(), "1500".to_string()],
        ]
    );
}

#[test]
fn a_history_without_commits_is_refused_before_anything_is_measured() {
    assert!(run(&[], None, 2, false, 0).is_err());
}

#[test]
fn a_failed_measurement_fails_the_run() {
    let lines: Vec<Vec<u8>> = vec![b"200 b2".to_vec(), b"100 a1".to_vec()];
    let index = build_index(&lines).unwrap();
    let samples = plan_samples(&index, None);
    let mut scheduler = Scheduler::new(&samples, 2);
    assert_eq!(samples.len(), 1);
    assert_eq!(scheduler.dispatch(), Some(0));
    let failed = after_disk_usage(false, b"", false).map(|_| (0, None));
    assert!(scheduler.complete(0, failed));
    assert_eq!(
        scheduler.finish(),
        Err(PipelineError::MeasurementFailure(MeasurementFault::QueryFailed))
    );
}
