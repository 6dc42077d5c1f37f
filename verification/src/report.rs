//! What the measured series hands to those who write it down: the fields of
//! its table, the range of its chart, and its summary.

use vstd::prelude::*;
use crate::calendar::{date_text, CalendarDate};
use crate::error::PipelineError;
use crate::measure::SizeMeasurement;
use crate::text::{decimal_string, decimal_text, text_of};

verus! {

/// The texts of strings, one by one.
pub open spec fn texts_of(fields: Seq<String>) -> Seq<Seq<char>> {
    Seq::new(fields.len(), |i: int| fields[i]@)
}

/// The column titles of the table: the date and the packed size, and the
/// uncompressed size where it was measured.
pub open spec fn header_of(with_uncompressed: bool) -> Seq<Seq<char>> {
    if with_uncompressed {
        seq!["date"@, "cumulative-size"@, "uncompressed-size"@]
    } else {
        seq!["date"@, "cumulative-size"@]
    }
}

/// The fields of the table's row for a measurement: the date as `chrono`
/// writes it, then the sizes in decimal. An uncompressed size that is wanted
/// and was not measured is written as 0.
pub open spec fn row_of(measurement: SizeMeasurement, with_uncompressed: bool) -> Seq<Seq<char>> {
    if with_uncompressed {
        seq![
            date_text(measurement.date.days * 86_400),
            text_of(decimal_text(measurement.packed_size as nat)),
            text_of(
                decimal_text(
                    match measurement.uncompressed_size {
                        Some(size) => size as nat,
                        None => 0nat,
                    },
                ),
            ),
        ]
    } else {
        seq![
            date_text(measurement.date.days * 86_400),
            text_of(decimal_text(measurement.packed_size as nat)),
        ]
    }
}

/// The column titles of the table.
pub fn csv_header(with_uncompressed: bool) -> (fields: Vec<String>)
    ensures
        texts_of(fields@) == header_of(with_uncompressed),
{
    let mut fields: Vec<String> = Vec::new();
    fields.push("date".to_owned());
    fields.push("cumulative-size".to_owned());
    if with_uncompressed {
        fields.push("uncompressed-size".to_owned());
    }
    fields
}

/// The fields of the table's row for a measurement; nothing where its date
/// is none of the calendar.
pub fn csv_row(measurement: &SizeMeasurement, with_uncompressed: bool) -> (fields: Option<
    Vec<String>,
>)
    ensures
        fields is Some <==> measurement.date.in_calendar(),
        fields matches Some(found) ==> texts_of(found@) == row_of(*measurement, with_uncompressed),
{
    let date = match measurement.date.to_text() {
        Some(date) => date,
        None => {
            return None;
        },
    };
    let mut fields: Vec<String> = Vec::new();
    fields.push(date);
    fields.push(decimal_string(measurement.packed_size));
    if with_uncompressed {
        let size = match measurement.uncompressed_size {
            Some(size) => size,
            None => 0,
        };
        fields.push(decimal_string(size));
    }
    Some(fields)
}

/// Whether the series was written down: the table was written, and so was
/// the chart where one was asked for and tried.
pub open spec fn is_written(table_written: bool, chart_written: Option<bool>) -> bool {
    table_written && chart_written != Some(false)
}

/// Closes a run whose measurements are all there. The measurements stay
/// what they are, and the run has failed where the table or the chart could
/// not be written.
pub fn check_output(table_written: bool, chart_written: Option<bool>) -> (outcome: Result<
    (),
    PipelineError,
>)
    ensures
        outcome == if is_written(table_written, chart_written) {
            Ok::<(), PipelineError>(())
        } else {
            Err::<(), PipelineError>(PipelineError::OutputWrite)
        },
{
    if !table_written {
        return Err(PipelineError::OutputWrite);
    }
    match chart_written {
        Some(false) => Err(PipelineError::OutputWrite),
        _ => Ok(()),
    }
}

/// The unit in which a size reads best.
#[derive(Clone, Copy, Debug, PartialEq, Eq, Structural)]
pub enum SizeUnit {
    /// Single bytes.
    Bytes,
    /// A thousand bytes.
    Kilobytes,
    /// A million bytes.
    Megabytes,
    /// A thousand million bytes.
    Gigabytes,
}

/// The largest unit that a size reaches.
pub open spec fn unit_of(size: u64) -> SizeUnit {
    if size >= 1_000_000_000 {
        SizeUnit::Gigabytes
    } else if size >= 1_000_000 {
        SizeUnit::Megabytes
    } else if size >= 1_000 {
        SizeUnit::Kilobytes
    } else {
        SizeUnit::Bytes
    }
}

/// The bytes of one unit.
pub open spec fn bytes_of(unit: SizeUnit) -> u64 {
    match unit {
        SizeUnit::Bytes => 1,
        SizeUnit::Kilobytes => 1_000,
        SizeUnit::Megabytes => 1_000_000,
        SizeUnit::Gigabytes => 1_000_000_000,
    }
}

/// The largest unit that `size` reaches.
pub fn size_unit(size: u64) -> (unit: SizeUnit)
    ensures
        unit == unit_of(size),
        bytes_of(unit) <= size || size == 0 || unit is Bytes,
{
    if size >= 1_000_000_000 {
        SizeUnit::Gigabytes
    } else if size >= 1_000_000 {
        SizeUnit::Megabytes
    } else if size >= 1_000 {
        SizeUnit::Kilobytes
    } else {
        SizeUnit::Bytes
    }
}

/// The bytes of one `unit`.
pub fn unit_bytes(unit: SizeUnit) -> (bytes: u64)
    ensures
        bytes == bytes_of(unit),
{
    match unit {
        SizeUnit::Bytes => 1,
        SizeUnit::Kilobytes => 1_000,
        SizeUnit::Megabytes => 1_000_000,
        SizeUnit::Gigabytes => 1_000_000_000,
    }
}

/// The letters that stand for a unit.
pub fn unit_label(unit: SizeUnit) -> (label: &'static str)
    ensures
        label@ == match unit {
            SizeUnit::Bytes => "B"@,
            SizeUnit::Kilobytes => "KB"@,
            SizeUnit::Megabytes => "MB"@,
            SizeUnit::Gigabytes => "GB"@,
        },
{
    match unit {
        SizeUnit::Bytes => "B",
        SizeUnit::Kilobytes => "KB",
        SizeUnit::Megabytes => "MB",
        SizeUnit::Gigabytes => "GB",
    }
}

/// By how much the packed size grew from the first measurement to the last:
/// nothing where there are fewer than two, and 0 where it shrank.
pub open spec fn growth_of(series: Seq<SizeMeasurement>) -> Option<u64> {
    if series.len() >= 2 {
        if series[series.len() - 1].packed_size >= series[0].packed_size {
            Some((series[series.len() - 1].packed_size - series[0].packed_size) as u64)
        } else {
            Some(0u64)
        }
    } else {
        None
    }
}

/// By how much the packed size grew over the series.
pub fn total_growth(series: &Vec<SizeMeasurement>) -> (growth: Option<u64>)
    ensures
        growth == growth_of(series@),
{
    let count = series.len();
    if count >= 2 {
        let first = series[0].packed_size;
        let last = series[count - 1].packed_size;
        if last >= first {
            Some(last - first)
        } else {
            Some(0)
        }
    } else {
        None
    }
}

/// The ranges of a chart of the series.
#[derive(Clone, Copy, Debug, PartialEq, Eq, Structural)]
pub struct ChartRange {
    /// The second at which the time axis begins.
    pub from_time: i64,
    /// The second at which the time axis ends.
    pub to_time: i64,
    /// The size at which the size axis ends; it begins at 0.
    pub to_size: u64,
}

/// The margin of the time axis: a twentieth of the time that the points
/// span, and thirty days at least.
pub open spec fn time_margin(earliest: int, latest: int) -> int {
    if (latest - earliest) / 20 > 2_592_000 {
        (latest - earliest) / 20
    } else {
        2_592_000
    }
}

/// The margin of the size axis: a tenth of the largest size, and a thousand
/// bytes at least.
pub open spec fn size_margin(largest: int) -> int {
    if largest / 10 > 1_000 {
        largest / 10
    } else {
        1_000
    }
}

/// Whether a measurement can be drawn: its date is one of the calendar.
pub open spec fn is_drawable(measurement: SizeMeasurement) -> bool {
    measurement.date.in_calendar()
}

/// Whether the measurements at `early`, `late` and `large` are the earliest,
/// the latest and the largest of those that can be drawn.
pub open spec fn are_extremes(series: Seq<SizeMeasurement>, early: int, late: int, large: int) -> bool {
    &&& 0 <= early < series.len() && is_drawable(series[early])
    &&& 0 <= late < series.len() && is_drawable(series[late])
    &&& 0 <= large < series.len() && is_drawable(series[large])
    &&& forall|i: int|
        0 <= i < series.len() && is_drawable(#[trigger] series[i]) ==> {
            &&& series[early].date.days <= series[i].date.days <= series[late].date.days
            &&& series[i].packed_size <= series[large].packed_size
        }
}

/// The range of a chart whose points lie between the days `earliest` and
/// `latest` and reach the size `largest`: the first seconds of the two days,
/// each with the time margin, and the size with the size margin, as far as a
/// `u64` holds it.
pub open spec fn range_around(earliest: int, latest: int, largest: int) -> ChartRange {
    ChartRange {
        from_time: (earliest * 86_400 - time_margin(earliest * 86_400, latest * 86_400)) as i64,
        to_time: (latest * 86_400 + time_margin(earliest * 86_400, latest * 86_400)) as i64,
        to_size: if largest + size_margin(largest) > u64::MAX {
            u64::MAX
        } else {
            (largest + size_margin(largest)) as u64
        },
    }
}

/// Whether `range` is the range of a chart of `series`.
pub open spec fn is_chart_range(series: Seq<SizeMeasurement>, range: ChartRange) -> bool {
    exists|early: int, late: int, large: int| #[trigger]
        are_extremes(series, early, late, large) && range == range_around(
            series[early].date.days as int,
            series[late].date.days as int,
            series[large].packed_size as int,
        )
}

/// The positions of the earliest, the latest and the largest of the
/// measurements that can be drawn.
fn find_extremes(series: &Vec<SizeMeasurement>) -> (extremes: Option<(usize, usize, usize)>)
    ensures
        extremes is None <==> forall|i: int|
            0 <= i < series@.len() ==> !is_drawable(#[trigger] series@[i]),
        extremes matches Some(at) ==> are_extremes(series@, at.0 as int, at.1 as int, at.2 as int),
{
    let mut extremes: Option<(usize, usize, usize)> = None;
    let mut i: usize = 0;
    while i < series.len()
        invariant
            i <= series@.len(),
            extremes is None ==> forall|k: int| 0 <= k < i ==> !is_drawable(#[trigger] series@[k]),
            extremes matches Some(at) ==> {
                &&& at.0 < i && is_drawable(series@[at.0 as int])
                &&& at.1 < i && is_drawable(series@[at.1 as int])
                &&& at.2 < i && is_drawable(series@[at.2 as int])
                &&& forall|k: int|
                    0 <= k < i && is_drawable(#[trigger] series@[k]) ==> {
                        &&& series@[at.0 as int].date.days <= series@[k].date.days
                            <= series@[at.1 as int].date.days
                        &&& series@[k].packed_size <= series@[at.2 as int].packed_size
                    }
            },
        decreases series@.len() - i,
    {
        let days = series[i].date.days;
        if crate::calendar::MIN_DAY <= days && days <= crate::calendar::MAX_DAY {
            extremes = match extremes {
                None => Some((i, i, i)),
                Some((early, late, large)) => {
                    let early = if days < series[early].date.days {
                        i
                    } else {
                        early
                    };
                    let late = if days > series[late].date.days {
                        i
                    } else {
                        late
                    };
                    let large = if series[i].packed_size > series[large].packed_size {
                        i
                    } else {
                        large
                    };
                    Some((early, late, large))
                },
            };
        }
        i = i + 1;
    }
    extremes
}

/// The range of a chart between two days of the calendar.
fn range_between(earliest: CalendarDate, latest: CalendarDate, largest: u64) -> (range: ChartRange)
    requires
        earliest.in_calendar(),
        latest.in_calendar(),
        earliest.days <= latest.days,
    ensures
        range == range_around(earliest.days as int, latest.days as int, largest as int),
{
    let from: i64 = earliest.days * 86_400;
    let to: i64 = latest.days * 86_400;
    let spread: i64 = (to - from) / 20;
    let time_pad: i64 = if spread > 2_592_000 {
        spread
    } else {
        2_592_000
    };
    let tenth: u64 = largest / 10;
    let size_pad: u64 = if tenth > 1_000 {
        tenth
    } else {
        1_000
    };
    let to_size: u64 = match largest.checked_add(size_pad) {
        Some(sum) => sum,
        None => u64::MAX,
    };
    ChartRange { from_time: from - time_pad, to_time: to + time_pad, to_size }
}

/// The range of a chart of the series; nothing where no measurement can be
/// drawn.
pub fn chart_range(series: &Vec<SizeMeasurement>) -> (range: Option<ChartRange>)
    ensures
        range is None <==> forall|i: int| 0 <= i < series@.len() ==> !is_drawable(#[trigger] series@[i]),
        range matches Some(found) ==> is_chart_range(series@, found),
{
    match find_extremes(series) {
        None => None,
        Some((early, late, large)) => {
            let range = range_between(
                series[early].date,
                series[late].date,
                series[large].packed_size,
            );
            Some(range)
        },
    }
}

} // verus!
