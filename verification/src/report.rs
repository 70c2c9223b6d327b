//! What the commands print.
use vstd::prelude::*;

use crate::db::{Scan, StoredFileEntry};
use crate::format::{megabytes, megabytes_text, signed_megabytes, signed_megabytes_text};
use crate::text::{
    decimal, i64_text, pad, padded, repeat_char, repeated, signed_decimal, u64_text, usize_text,
};
use crate::time::{date_text, format_date, has_date, Timestamp, TO_THE_SECOND};
use crate::ui::screens::{cleanup_line, cleanup_row};

verus! {

/// A date to the second.
pub open spec fn date_of(t: Timestamp) -> Seq<char> {
    date_text(t.secs, t.nanos, TO_THE_SECOND@)
}

/// Five columns.
pub open spec fn columns(
    a: Seq<char>,
    b: Seq<char>,
    c: Seq<char>,
    d: Seq<char>,
    e: Seq<char>,
) -> Seq<char> {
    padded(a, 5) + " "@ + padded(b, 40) + " "@ + padded(c, 12) + " "@ + padded(d, 12) + " "@
        + padded(e, 20)
}

fn column_text(a: &str, b: &str, c: &str, d: &str, e: &str) -> (s: String)
    ensures
        s@ == columns(a@, b@, c@, d@, e@),
{
    let mut s = pad(a, 5);
    s.append(" ");
    s.append(pad(b, 40).as_str());
    s.append(" ");
    s.append(pad(c, 12).as_str());
    s.append(" ");
    s.append(pad(d, 12).as_str());
    s.append(" ");
    s.append(pad(e, 20).as_str());
    s
}

/// The head of the list of scans.
pub fn list_header() -> (s: String)
    ensures
        s@ == columns("ID"@, "Path"@, "Files"@, "Size (MB)"@, "Date"@),
{
    column_text("ID", "Path", "Files", "Size (MB)", "Date")
}

/// The line below the head of the list of scans.
pub fn list_rule() -> (s: String)
    ensures
        s@ == repeated('-', 90),
{
    repeat_char('-', 90)
}

/// The line for a scan in the list of scans. There is none where the calendar does not reach its
/// start.
pub fn list_row(scan: &Scan) -> (row: Option<String>)
    ensures
        row is Some <==> has_date(scan.started_at.secs, scan.started_at.nanos),
        row is Some ==> row->0@ == columns(
            signed_decimal(scan.id as int),
            scan.root_path@,
            signed_decimal(scan.total_files as int),
            megabytes(scan.total_size as int),
            date_of(scan.started_at),
        ),
{
    match format_date(scan.started_at, TO_THE_SECOND) {
        Some(date) => Some(
            column_text(
                i64_text(scan.id).as_str(),
                scan.root_path.as_str(),
                i64_text(scan.total_files).as_str(),
                megabytes_text(scan.total_size).as_str(),
                date.as_str(),
            ),
        ),
        None => None,
    }
}

/// How the disk usage changed.
#[derive(Debug, Clone, Copy, PartialEq, Eq, Structural)]
pub enum Trend {
    Increased,
    Decreased,
    Unchanged,
}

/// The differences between two scans.
pub struct ScanDiff {
    pub files: i64,
    pub size: i64,
    pub trend: Trend,
}

/// Compares two scans. There is no result where a difference is too large to be held.
pub fn compare(first: &Scan, second: &Scan) -> (diff: Option<ScanDiff>)
    ensures
        diff is Some <==> {
            &&& i64::MIN <= second.total_files - first.total_files <= i64::MAX
            &&& i64::MIN <= second.total_size - first.total_size <= i64::MAX
        },
        diff is Some ==> {
            &&& diff->0.files == second.total_files - first.total_files
            &&& diff->0.size == second.total_size - first.total_size
            &&& diff->0.trend == if second.total_size > first.total_size {
                Trend::Increased
            } else if second.total_size < first.total_size {
                Trend::Decreased
            } else {
                Trend::Unchanged
            }
        },
{
    let files = second.total_files.checked_sub(first.total_files);
    let size = second.total_size.checked_sub(first.total_size);
    match (files, size) {
        (Some(files), Some(size)) => Some(
            ScanDiff {
                files,
                size,
                trend: if size > 0 {
                    Trend::Increased
                } else if size < 0 {
                    Trend::Decreased
                } else {
                    Trend::Unchanged
                },
            },
        ),
        _ => None,
    }
}

/// A number that always shows its sign.
pub open spec fn plus_minus(n: int) -> Seq<char> {
    if n < 0 {
        signed_decimal(n)
    } else {
        seq!['+'] + signed_decimal(n)
    }
}

/// A number that always shows its sign.
pub fn signed_text(n: i64) -> (s: String)
    ensures
        s@ == plus_minus(n as int),
{
    let mut s = String::new();
    if n >= 0 {
        s.push('+');
    }
    s.append(i64_text(n).as_str());
    assert(s@ =~= plus_minus(n as int));
    s
}

impl ScanDiff {
    /// The lines about the differences.
    pub fn lines(&self) -> (lines: (String, String, &'static str))
        ensures
            lines.0@ == "  Files: "@ + plus_minus(self.files as int),
            lines.1@ == "  Size: "@ + signed_megabytes(self.size as int) + " MB"@,
            lines.2@ == match self.trend {
                Trend::Increased => "  ⚠️  Disk usage increased!"@,
                Trend::Decreased => "  ✓ Disk usage decreased!"@,
                Trend::Unchanged => "  No change in disk usage"@,
            },
    {
        let mut files = "  Files: ".to_owned();
        files.append(signed_text(self.files).as_str());
        let mut size = "  Size: ".to_owned();
        size.append(signed_megabytes_text(self.size).as_str());
        size.append(" MB");
        let verdict = match self.trend {
            Trend::Increased => "  ⚠️  Disk usage increased!",
            Trend::Decreased => "  ✓ Disk usage decreased!",
            Trend::Unchanged => "  No change in disk usage",
        };
        (files, size, verdict)
    }
}

/// A date to the second, where the calendar reaches it.
pub fn date_line(t: Timestamp) -> (date: Option<String>)
    ensures
        date is Some <==> has_date(t.secs, t.nanos),
        date is Some ==> date->0@ == date_of(t),
{
    format_date(t, TO_THE_SECOND)
}

/// A size in megabytes.
pub fn size_line(size: i64) -> (s: String)
    ensures
        s@ == megabytes(size as int) + " MB"@,
{
    let mut s = megabytes_text(size);
    s.append(" MB");
    s
}

/// The line for one of the largest entries of a scan.
pub fn largest_row(e: &StoredFileEntry) -> (s: String)
    ensures
        s@ == "  "@ + cleanup_line(*e),
{
    let mut s = "  ".to_owned();
    s.append(cleanup_row(e).as_str());
    s
}

/// So many directories that are being scanned are printed.
pub const PRINTED_DIRS: usize = 4;

/// So many bytes of their paths are printed.
pub const PRINTED_PATH: usize = 70;

/// The line on the progress of a scan.
pub fn progress_line(entries: u64, workers: usize) -> (s: String)
    ensures
        s@ == "Progress: "@ + decimal(entries as nat) + " entries scanned"@ + if workers > 0 {
            " | "@ + decimal(workers as nat) + " parallel workers"@
        } else {
            Seq::empty()
        },
{
    let mut s = "Progress: ".to_owned();
    s.append(u64_text(entries).as_str());
    s.append(" entries scanned");
    let ghost before = s@;
    if workers > 0 {
        s.append(" | ");
        s.append(usize_text(workers).as_str());
        s.append(" parallel workers");
        assert(s@ =~= before + (" | "@ + decimal(workers as nat) + " parallel workers"@));
    } else {
        assert(s@ =~= before + Seq::empty());
    }
    s
}

/// The line on the directories that are not printed, where there are any.
pub fn more_line(dirs: usize) -> (s: Option<String>)
    ensures
        s is Some <==> dirs > PRINTED_DIRS,
        s is Some ==> s->0@ == "  ... and "@ + decimal((dirs - PRINTED_DIRS) as nat)
            + " more directories"@,
{
    if dirs > PRINTED_DIRS {
        let mut s = "  ... and ".to_owned();
        s.append(usize_text(dirs - PRINTED_DIRS).as_str());
        s.append(" more directories");
        Some(s)
    } else {
        None
    }
}

} // verus!
