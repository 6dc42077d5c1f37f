use git_size_history::error::{MeasurementFault, PipelineError};
use git_size_history::measure::{
    after_disk_usage, after_pipeline, begin_measurement, blob_size, object_id, packed_size,
    read_disk_usage, uncompressed_size, BlobTally, FeederEnd, MeasureStep, PipelineReport,
};

fn fault(fault: MeasurementFault) -> PipelineError {
    PipelineError::MeasurementFailure(fault)
}

fn good_report() -> PipelineReport {
    PipelineReport {
        output_read: true,
        feeder: FeederEnd::Finished,
        classifier_reaped: true,
        lister_reaped: true,
    }
}

#[test]
fn disk_usage_is_the_number_on_the_last_line() {
    assert_eq!(read_disk_usage(b"1234\n"), 1234);
    assert_eq!(read_disk_usage(b"1234"), 1234);
    assert_eq!(read_disk_usage(b"  42 \r\n"), 42);
    assert_eq!(read_disk_usage(b"warning: something\n987\n"), 987);
    assert_eq!(read_disk_usage(b"18446744073709551615\n"), u64::MAX);
}

#[test]
fn disk_usage_without_a_number_is_zero() {
    assert_eq!(read_disk_usage(b""), 0);
    assert_eq!(read_disk_usage(b"\n"), 0);
    assert_eq!(read_disk_usage(b"abc\n"), 0);
    assert_eq!(read_disk_usage(b"123\n\n"), 0);
    assert_eq!(read_disk_usage(b"123\nabc\n"), 0);
    assert_eq!(read_disk_usage(b"-5\n"), 0);
    assert_eq!(read_disk_usage(b"12 34\n"), 0);
    assert_eq!(read_disk_usage(b"18446744073709551616\n"), 0);
}

#[test]
fn a_revision_without_objects_has_packed_size_zero() {
    assert_eq!(packed_size(true, b"0\n"), Ok(0));
    assert_eq!(packed_size(true, b""), Ok(0));
}

#[test]
fn a_failed_disk_usage_query_is_a_failure() {
    assert_eq!(packed_size(false, b"1234\n"), Err(fault(MeasurementFault::QueryFailed)));
    assert_eq!(packed_size(false, b""), Err(fault(MeasurementFault::QueryFailed)));
    assert_eq!(packed_size(true, b"1234\n"), Ok(1234));
}

#[test]
fn only_blob_lines_have_a_size() {
    assert_eq!(blob_size(b"8f3a blob 40"), Some(40));
    assert_eq!(blob_size(b"8f3a   blob\t40  extra"), Some(40));
    assert_eq!(blob_size(b"8f3a tree 40"), None);
    assert_eq!(blob_size(b"8f3a commit 212"), None);
    assert_eq!(blob_size(b"8f3a tag 99"), None);
    assert_eq!(blob_size(b"8f3a missing"), None);
    assert_eq!(blob_size(b"8f3a blob"), None);
    assert_eq!(blob_size(b"8f3a blob x40"), None);
    assert_eq!(blob_size(b"8f3a blob -4"), None);
    assert_eq!(blob_size(b"8f3a Blob 40"), None);
    assert_eq!(blob_size(b"8f3a blobs 40"), None);
    assert_eq!(blob_size(b"blob 40"), None);
    assert_eq!(blob_size(b""), None);
}

#[test]
fn a_new_tally_is_empty() {
    let tally = BlobTally::new();
    assert_eq!(tally.objects(), 0);
    assert_eq!(tally.blobs(), 0);
    assert_eq!(tally.bytes(), 0);
}

#[test]
fn the_tally_adds_up_the_blobs() {
    let mut tally = BlobTally::new();
    for line in [
        "1111 commit 230",
        "2222 tree 68",
        "3333 blob 40",
        "4444 blob 1000",
        "5555 tag 12",
        "6666 blob 2",
    ] {
        assert_eq!(tally.absorb(line.as_bytes()), Ok(()));
    }
    assert_eq!(tally.objects(), 6);
    assert_eq!(tally.blobs(), 3);
    assert_eq!(tally.bytes(), 1042);
}

#[test]
fn one_blob_of_known_size_is_the_uncompressed_size() {
    let mut tally = BlobTally::new();
    assert_eq!(tally.absorb(b"aaaa commit 187"), Ok(()));
    assert_eq!(tally.absorb(b"bbbb tree 36"), Ok(()));
    assert_eq!(tally.absorb(b"cccc blob 40"), Ok(()));
    assert_eq!(uncompressed_size(&tally, &good_report()), Ok(40));
    assert_eq!(tally.blobs(), 1);
}

#[test]
fn a_revision_without_objects_has_uncompressed_size_zero() {
    let tally = BlobTally::new();
    assert_eq!(uncompressed_size(&tally, &good_report()), Ok(0));
}

#[test]
fn a_total_beyond_u64_is_refused_and_leaves_the_tally() {
    let mut tally = BlobTally::new();
    assert_eq!(tally.absorb(b"a blob 18446744073709551615"), Ok(()));
    assert_eq!(tally.absorb(b"b tree 5"), Ok(()));
    assert_eq!(tally.absorb(b"c blob 1"), Err(fault(MeasurementFault::TotalTooLarge)));
    assert_eq!(tally.objects(), 2);
    assert_eq!(tally.blobs(), 1);
    assert_eq!(tally.bytes(), u64::MAX);
    assert_eq!(tally.absorb(b"d blob 0"), Ok(()));
    assert_eq!(tally.objects(), 3);
    assert_eq!(tally.bytes(), u64::MAX);
}

#[test]
fn object_id_is_the_first_field() {
    assert_eq!(object_id(b"8f3a src/main.rs"), Some(&b"8f3a"[..]));
    assert_eq!(object_id(b"8f3a"), Some(&b"8f3a"[..]));
    assert_eq!(object_id(b"  8f3a path with blanks\n"), Some(&b"8f3a"[..]));
    assert_eq!(object_id(b""), None);
    assert_eq!(object_id(b"   \n"), None);
}

#[test]
fn the_first_failure_of_the_pipeline_is_reported() {
    let tally = BlobTally::new();
    let all_bad = PipelineReport {
        output_read: false,
        feeder: FeederEnd::Panicked,
        classifier_reaped: false,
        lister_reaped: false,
    };
    assert_eq!(uncompressed_size(&tally, &all_bad), Err(fault(MeasurementFault::ReadFailed)));
    let report = PipelineReport { output_read: true, ..all_bad };
    assert_eq!(uncompressed_size(&tally, &report), Err(fault(MeasurementFault::FeederPanicked)));
    let report = PipelineReport { feeder: FeederEnd::WriteFailed, ..report };
    assert_eq!(uncompressed_size(&tally, &report), Err(fault(MeasurementFault::FeederFailed)));
    let report = PipelineReport { feeder: FeederEnd::Finished, ..report };
    assert_eq!(uncompressed_size(&tally, &report), Err(fault(MeasurementFault::ClassifierLost)));
    let report = PipelineReport { classifier_reaped: true, ..report };
    assert_eq!(uncompressed_size(&tally, &report), Err(fault(MeasurementFault::ListerLost)));
    let report = PipelineReport { lister_reaped: true, ..report };
    assert_eq!(uncompressed_size(&tally, &report), Ok(0));
}

#[test]
fn a_failure_of_the_feeder_is_not_dropped() {
    let mut tally = BlobTally::new();
    assert_eq!(tally.absorb(b"cccc blob 40"), Ok(()));
    let report = PipelineReport { feeder: FeederEnd::WriteFailed, ..good_report() };
    assert_eq!(uncompressed_size(&tally, &report), Err(fault(MeasurementFault::FeederFailed)));
    assert_eq!(
        after_pipeline(77, &tally, &report),
        Err(fault(MeasurementFault::FeederFailed))
    );
}

#[test]
fn a_measurement_begins_with_the_disk_usage_query() {
    assert_eq!(begin_measurement("abc123"), Ok(MeasureStep::QueryDiskUsage));
    assert_eq!(begin_measurement("HEAD"), Ok(MeasureStep::QueryDiskUsage));
}

#[test]
fn a_revision_without_a_name_is_refused() {
    assert_eq!(begin_measurement(""), Err(fault(MeasurementFault::EmptyRevision)));
}

#[test]
fn the_blobs_are_added_up_only_where_asked() {
    assert_eq!(
        after_disk_usage(true, b"1234\n", false),
        Ok(MeasureStep::Done { packed_size: 1234, uncompressed_size: None })
    );
    assert_eq!(
        after_disk_usage(true, b"1234\n", true),
        Ok(MeasureStep::SumBlobs { packed_size: 1234 })
    );
    assert_eq!(
        after_disk_usage(false, b"1234\n", true),
        Err(fault(MeasurementFault::QueryFailed))
    );
    assert_eq!(
        after_disk_usage(true, b"garbage", false),
        Ok(MeasureStep::Done { packed_size: 0, uncompressed_size: None })
    );
}

#[test]
fn a_good_pipeline_ends_the_measurement_with_both_sizes() {
    let mut tally = BlobTally::new();
    assert_eq!(tally.absorb(b"aaaa blob 40"), Ok(()));
    assert_eq!(tally.absorb(b"bbbb blob 2"), Ok(()));
    assert_eq!(
        after_pipeline(1234, &tally, &good_report()),
        Ok(MeasureStep::Done { packed_size: 1234, uncompressed_size: Some(42) })
    );
}

#[test]
fn measuring_twice_gives_the_same_sizes() {
    let lines: [&[u8]; 4] = [b"1 commit 100", b"2 tree 30", b"3 blob 7", b"4 blob 35"];
    let mut results = Vec::new();
    for _ in 0..2 {
        let mut tally = BlobTally::new();
        for line in lines {
            assert_eq!(tally.absorb(line), Ok(()));
        }
        results.push((
            after_disk_usage(true, b"555\n", true),
            after_pipeline(555, &tally, &good_report()),
        ));
    }
    assert_eq!(results[0], results[1]);
}
