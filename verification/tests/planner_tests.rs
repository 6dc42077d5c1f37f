use git_size_history::calendar::{day_number, CalendarDate};
use git_size_history::history::{build_index, HistoryIndex, IndexBuilder};
use git_size_history::planner::{
    forced_cadence, interval_seconds, nearest_by_scan, nearest_by_search, plan_samples,
    sample_targets, select_cadence, Cadence, SamplePoint, MONTHLY_INTERVAL, SECONDS_PER_YEAR,
    YEARLY_INTERVAL, YEARLY_THRESHOLD_YEARS,
};

const DAY: i64 = 86_400;

fn index_of(revisions: &[(i64, &str)]) -> HistoryIndex {
    let mut builder = IndexBuilder::new();
    for (timestamp, id) in revisions.iter().rev() {
        assert_eq!(builder.push(*timestamp, id), Ok(()));
    }
    builder.finish().unwrap()
}

fn days(samples: &[SamplePoint]) -> Vec<i64> {
    samples.iter().map(|sample| sample.date.days).collect()
}

fn revisions(samples: &[SamplePoint]) -> Vec<&str> {
    samples.iter().map(|sample| sample.revision.as_str()).collect()
}

#[test]
fn the_steps_are_365_and_30_days() {
    assert_eq!(interval_seconds(Cadence::Yearly), 365 * DAY);
    assert_eq!(interval_seconds(Cadence::Monthly), 30 * DAY);
    assert_eq!(YEARLY_INTERVAL, 31_536_000);
    assert_eq!(MONTHLY_INTERVAL, 2_592_000);
}

#[test]
fn a_year_has_365_and_a_quarter_days() {
    assert_eq!(SECONDS_PER_YEAR * 4, (4 * 365 + 1) * DAY);
    assert_eq!(YEARLY_THRESHOLD_YEARS, 6);
}

#[test]
fn the_yearly_switch_wins() {
    assert_eq!(forced_cadence(true, false), Some(Cadence::Yearly));
    assert_eq!(forced_cadence(true, true), Some(Cadence::Yearly));
    assert_eq!(forced_cadence(false, true), Some(Cadence::Monthly));
    assert_eq!(forced_cadence(false, false), None);
}

#[test]
fn exactly_six_years_are_sampled_monthly() {
    let six_years = 6 * SECONDS_PER_YEAR;
    assert_eq!(six_years, 189_345_600);
    assert_eq!(select_cadence(None, 1_000, 1_000 + six_years), Cadence::Monthly);
    assert_eq!(select_cadence(None, -six_years, 0), Cadence::Monthly);
}

#[test]
fn more_than_six_years_are_sampled_yearly() {
    let six_years = 6 * SECONDS_PER_YEAR;
    assert_eq!(select_cadence(None, 1_000, 1_000 + six_years + 1), Cadence::Yearly);
    assert_eq!(select_cadence(None, 0, 189_364_535), Cadence::Yearly);
    assert_eq!(select_cadence(None, i64::MIN, i64::MAX), Cadence::Yearly);
}

#[test]
fn short_and_backward_spans_are_sampled_monthly() {
    assert_eq!(select_cadence(None, 5, 5), Cadence::Monthly);
    assert_eq!(select_cadence(None, 0, 50 * DAY), Cadence::Monthly);
    assert_eq!(select_cadence(None, 100, 0), Cadence::Monthly);
    assert_eq!(select_cadence(None, i64::MAX, i64::MIN), Cadence::Monthly);
}

#[test]
fn a_forced_cadence_is_taken_whatever_the_span() {
    assert_eq!(select_cadence(Some(Cadence::Yearly), 0, 10), Cadence::Yearly);
    assert_eq!(select_cadence(Some(Cadence::Monthly), 0, 100 * SECONDS_PER_YEAR), Cadence::Monthly);
}

#[test]
fn targets_step_from_the_first_and_end_with_the_last() {
    assert_eq!(
        sample_targets(0, 100 * DAY, Cadence::Monthly),
        vec![0, 30 * DAY, 60 * DAY, 90 * DAY, 100 * DAY]
    );
    assert_eq!(sample_targets(7, 7 + 700 * DAY, Cadence::Yearly), vec![7, 7 + 365 * DAY, 7 + 700 * DAY]);
}

#[test]
fn a_last_that_lies_on_a_step_comes_once() {
    assert_eq!(sample_targets(0, 60 * DAY, Cadence::Monthly), vec![0, 30 * DAY, 60 * DAY]);
    assert_eq!(sample_targets(5, 5, Cadence::Yearly), vec![5]);
}

#[test]
fn a_last_before_the_first_is_the_only_target() {
    assert_eq!(sample_targets(100, 50, Cadence::Monthly), vec![50]);
}

#[test]
fn targets_near_the_end_of_the_integers_do_not_wrap() {
    let first = i64::MAX - 40 * DAY;
    assert_eq!(sample_targets(first, i64::MAX, Cadence::Monthly), vec![first, first + 30 * DAY, i64::MAX]);
    assert_eq!(sample_targets(first, i64::MAX, Cadence::Yearly), vec![first, i64::MAX]);
}

#[test]
fn the_nearest_revision_is_found_by_search() {
    let index = index_of(&[(100, "a1"), (200, "b2"), (400, "c3")]);
    assert_eq!(nearest_by_search(&index, 0), 0);
    assert_eq!(nearest_by_search(&index, 100), 0);
    assert_eq!(nearest_by_search(&index, 149), 0);
    assert_eq!(nearest_by_search(&index, 151), 1);
    assert_eq!(nearest_by_search(&index, 299), 1);
    assert_eq!(nearest_by_search(&index, 301), 2);
    assert_eq!(nearest_by_search(&index, 1_000_000), 2);
    assert_eq!(nearest_by_search(&index, i64::MIN), 0);
    assert_eq!(nearest_by_search(&index, i64::MAX), 2);
}

#[test]
fn of_two_equally_near_revisions_the_earlier_is_taken() {
    let index = index_of(&[(100, "a1"), (200, "b2"), (400, "c3")]);
    assert_eq!(nearest_by_search(&index, 150), 0);
    assert_eq!(nearest_by_search(&index, 300), 1);
    assert_eq!(nearest_by_scan(&index, &vec![150, 300]), vec![0, 1]);
}

#[test]
fn of_revisions_with_one_timestamp_the_first_is_taken() {
    let index = index_of(&[(100, "a1"), (100, "b2"), (100, "c3"), (300, "d4"), (300, "e5")]);
    assert_eq!(nearest_by_search(&index, 100), 0);
    assert_eq!(nearest_by_search(&index, 50), 0);
    assert_eq!(nearest_by_search(&index, 199), 0);
    assert_eq!(nearest_by_search(&index, 200), 0);
    assert_eq!(nearest_by_search(&index, 201), 3);
    assert_eq!(nearest_by_search(&index, 300), 3);
    assert_eq!(nearest_by_search(&index, 999), 3);
    assert_eq!(
        nearest_by_scan(&index, &vec![50, 100, 199, 200, 201, 300, 999]),
        vec![0, 0, 0, 0, 3, 3, 3]
    );
}

#[test]
fn the_nearest_is_not_the_latest_before_where_a_later_one_is_nearer() {
    let index = index_of(&[(0, "a1"), (1_000, "b2")]);
    assert_eq!(nearest_by_search(&index, 900), 1);
    assert_eq!(nearest_by_scan(&index, &vec![900]), vec![1]);
}

#[test]
fn search_and_scan_agree() {
    let mut builder = IndexBuilder::new();
    let mut seed: u64 = 99;
    for i in 0..300 {
        seed = seed.wrapping_mul(6364136223846793005).wrapping_add(1442695040888963407);
        let timestamp = ((seed >> 40) % 2_000) as i64 - 500;
        assert_eq!(builder.push(timestamp, &format!("{:040x}", i)), Ok(()));
    }
    let index = builder.finish().unwrap();
    let targets: Vec<i64> = (-600..1_700).collect();
    let by_scan = nearest_by_scan(&index, &targets);
    assert_eq!(by_scan.len(), targets.len());
    let records = index.records();
    for (k, target) in targets.iter().enumerate() {
        let by_search = nearest_by_search(&index, *target);
        assert_eq!(by_search, by_scan[k]);
        let best = (records[by_search].timestamp - target).abs();
        for (at, record) in records.iter().enumerate() {
            let distance = (record.timestamp - target).abs();
            assert!(best <= distance);
            if at < by_search {
                assert!(best < distance);
            }
        }
    }
}

#[test]
fn the_scan_takes_targets_in_any_order() {
    let index = index_of(&[(100, "a1"), (200, "b2"), (400, "c3")]);
    let targets = vec![500, 0, 260, 150, 400, 100, 151];
    let by_scan = nearest_by_scan(&index, &targets);
    assert_eq!(by_scan, vec![2, 0, 1, 0, 2, 0, 1]);
    for (k, target) in targets.iter().enumerate() {
        assert_eq!(by_scan[k], nearest_by_search(&index, *target));
    }
    assert_eq!(nearest_by_scan(&index, &Vec::new()), Vec::<usize>::new());
}

#[test]
fn one_commit_gives_one_sample_on_its_date() {
    let t0 = 1_700_000_000;
    let index = index_of(&[(t0, "abc123")]);
    for forced in [None, Some(Cadence::Monthly), Some(Cadence::Yearly)] {
        let samples = plan_samples(&index, forced);
        assert_eq!(
            samples,
            vec![SamplePoint { date: CalendarDate { days: 19_675 }, revision: "abc123".to_string() }]
        );
        assert_eq!(samples[0].date.days, day_number(t0));
    }
}

#[test]
fn fifty_daily_commits_sampled_monthly() {
    let start = 1_700_000_000;
    let ids: Vec<String> = (0..50).map(|i| format!("{:040x}", i + 1)).collect();
    let history: Vec<(i64, &str)> = (0..50).map(|i| (start + i as i64 * DAY, ids[i].as_str())).collect();
    let index = index_of(&history);
    let samples = plan_samples(&index, Some(Cadence::Monthly));
    assert!(samples.len() >= 2);
    assert_eq!(days(&samples), vec![19_675, 19_705, 19_724]);
    assert_eq!(samples.last().unwrap().date, CalendarDate { days: day_number(start + 49 * DAY) });
    assert_eq!(revisions(&samples), vec![ids[0].as_str(), ids[30].as_str(), ids[49].as_str()]);
    assert_eq!(plan_samples(&index, None), samples);
}

#[test]
fn a_long_history_is_sampled_by_the_year() {
    let start = 1_000_000_000;
    let history = [
        (start, "a0"),
        (start + 200 * DAY, "a1"),
        (start + 900 * DAY, "a2"),
        (start + 1_500 * DAY, "a3"),
        (start + 2_500 * DAY, "a4"),
    ];
    let index = index_of(&history);
    let samples = plan_samples(&index, None);
    let first_day = day_number(start);
    assert_eq!(
        days(&samples),
        vec![
            first_day,
            first_day + 365,
            first_day + 730,
            first_day + 1_095,
            first_day + 1_460,
            first_day + 1_825,
            first_day + 2_190,
            first_day + 2_500
        ]
    );
    assert_eq!(revisions(&samples), vec!["a0", "a1", "a2", "a2", "a3", "a3", "a4", "a4"]);
}

#[test]
fn a_last_target_on_the_day_of_a_step_replaces_it() {
    let start = 10 * DAY + 100;
    let last = start + 60 * DAY + 3_600;
    let index = index_of(&[(start, "a0"), (start + 60 * DAY, "a1"), (last, "a2")]);
    let samples = plan_samples(&index, Some(Cadence::Monthly));
    assert_eq!(days(&samples), vec![10, 40, 70]);
    assert_eq!(revisions(&samples), vec!["a0", "a0", "a2"]);
}

#[test]
fn a_last_target_on_the_next_day_is_kept_beside_the_step() {
    let start = 10 * DAY + 80_000;
    let last = start + 60 * DAY + 7_000;
    let index = index_of(&[(start, "a0"), (last, "a2")]);
    let samples = plan_samples(&index, Some(Cadence::Monthly));
    assert_eq!(days(&samples), vec![10, 40, 70, 71]);
    assert_eq!(revisions(&samples), vec!["a0", "a0", "a2", "a2"]);
}

#[test]
fn the_dates_of_a_plan_ascend_and_end_with_the_head() {
    let mut seed: u64 = 7;
    for round in 0..40 {
        let mut history: Vec<(i64, String)> = Vec::new();
        let mut time: i64 = -3_000_000 + round * 77_777;
        for i in 0..(1 + round % 9) {
            seed = seed.wrapping_mul(6364136223846793005).wrapping_add(1442695040888963407);
            time += ((seed >> 35) % 40_000_000) as i64;
            history.push((time, format!("{:x}", 1000 + i)));
        }
        let borrowed: Vec<(i64, &str)> = history.iter().map(|(t, id)| (*t, id.as_str())).collect();
        let index = index_of(&borrowed);
        for forced in [None, Some(Cadence::Monthly), Some(Cadence::Yearly)] {
            let samples = plan_samples(&index, forced);
            assert!(!samples.is_empty());
            for pair in samples.windows(2) {
                assert!(pair[0].date.days < pair[1].date.days);
            }
            assert_eq!(samples.last().unwrap().date.days, day_number(time));
            assert_eq!(samples[0].date.days, day_number(history[0].0));
            for sample in &samples {
                assert!(history.iter().any(|(_, id)| *id == sample.revision));
            }
        }
    }
}

#[test]
fn planning_twice_gives_the_same_plan() {
    let traversal: Vec<Vec<u8>> = ["190000000 cc", "100000000 bb", "1000 aa"]
        .iter()
        .map(|line| line.as_bytes().to_vec())
        .collect();
    let one = plan_samples(&build_index(&traversal).unwrap(), None);
    let other = plan_samples(&build_index(&traversal).unwrap(), None);
    assert_eq!(one, other);
}
