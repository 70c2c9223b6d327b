//! What the database holds, and how its rows are read.
use vstd::prelude::*;

use crate::scanner::{copy_optional, FileEntry, ScanStats};
use crate::time::{
    has_date, ordinary, parse_instant, read_instant, rfc3339_text, to_rfc3339, Timestamp,
};

verus! {

/// A scan, as it is stored.
#[derive(Debug)]
pub struct Scan {
    pub id: i64,
    pub root_path: String,
    pub started_at: Timestamp,
    pub completed_at: Option<Timestamp>,
    pub total_size: i64,
    pub total_files: i64,
    pub total_dirs: i64,
    pub status: String,
    pub entries_table: Option<String>,
}

impl Clone for Scan {
    fn clone(&self) -> (copy: Self)
        ensures
            copy == *self,
    {
        Scan {
            id: self.id,
            root_path: self.root_path.clone(),
            started_at: self.started_at,
            completed_at: self.completed_at,
            total_size: self.total_size,
            total_files: self.total_files,
            total_dirs: self.total_dirs,
            status: self.status.clone(),
            entries_table: copy_optional(&self.entries_table),
        }
    }
}

/// A file or directory of a scan, as it is stored.
#[derive(Debug)]
pub struct StoredFileEntry {
    pub id: i64,
    pub scan_id: i64,
    pub path: String,
    pub name: String,
    pub parent_path: Option<String>,
    pub size: i64,
    pub is_dir: bool,
    pub modified_at: Option<Timestamp>,
    pub depth: i64,
}

impl Clone for StoredFileEntry {
    fn clone(&self) -> (copy: Self)
        ensures
            copy == *self,
    {
        StoredFileEntry {
            id: self.id,
            scan_id: self.scan_id,
            path: self.path.clone(),
            name: self.name.clone(),
            parent_path: copy_optional(&self.parent_path),
            size: self.size,
            is_dir: self.is_dir,
            modified_at: self.modified_at,
            depth: self.depth,
        }
    }
}

/// A row of the table of scans.
pub struct ScanRow {
    pub id: i64,
    pub root_path: String,
    pub started_at: String,
    pub completed_at: Option<String>,
    pub total_size: i64,
    pub total_files: i64,
    pub total_dirs: i64,
    pub status: String,
    pub entries_table: Option<String>,
}

/// The point in time that an optional text names.
pub open spec fn read_optional(text: Option<String>) -> Option<Timestamp> {
    match text {
        Some(t) => read_instant(t@),
        None => None,
    }
}

fn parse_optional(text: &Option<String>) -> (t: Option<Timestamp>)
    ensures
        t == read_optional(*text),
{
    match text {
        Some(text) => parse_instant(text.as_str()),
        None => None,
    }
}

/// The scan that a row holds. There is none where its start cannot be read; an end that cannot be
/// read counts as none.
pub fn scan_from_row(row: ScanRow) -> (scan: Option<Scan>)
    ensures
        scan is Some <==> read_instant(row.started_at@) is Some,
        scan is Some ==> scan->0 == (Scan {
            id: row.id,
            root_path: row.root_path,
            started_at: read_instant(row.started_at@)->0,
            completed_at: read_optional(row.completed_at),
            total_size: row.total_size,
            total_files: row.total_files,
            total_dirs: row.total_dirs,
            status: row.status,
            entries_table: row.entries_table,
        }),
{
    match parse_instant(row.started_at.as_str()) {
        Some(started_at) => {
            let completed_at = parse_optional(&row.completed_at);
            Some(
                Scan {
                    id: row.id,
                    root_path: row.root_path,
                    started_at,
                    completed_at,
                    total_size: row.total_size,
                    total_files: row.total_files,
                    total_dirs: row.total_dirs,
                    status: row.status,
                    entries_table: row.entries_table,
                },
            )
        },
        None => None,
    }
}

/// A row of the table of entries.
pub struct EntryRow {
    pub id: i64,
    pub scan_id: i64,
    pub path: String,
    pub name: String,
    pub parent_path: Option<String>,
    pub size: i64,
    pub is_dir: bool,
    pub modified_at: Option<String>,
    pub depth: i64,
}

/// The entry that a row holds; a time that cannot be read counts as none.
pub open spec fn entry_in(row: EntryRow) -> StoredFileEntry {
    StoredFileEntry {
        id: row.id,
        scan_id: row.scan_id,
        path: row.path,
        name: row.name,
        parent_path: row.parent_path,
        size: row.size,
        is_dir: row.is_dir,
        modified_at: read_optional(row.modified_at),
        depth: row.depth,
    }
}

/// The entry that a row holds.
pub fn entry_from_row(row: EntryRow) -> (entry: StoredFileEntry)
    ensures
        entry == entry_in(row),
{
    let modified_at = parse_optional(&row.modified_at);
    StoredFileEntry {
        id: row.id,
        scan_id: row.scan_id,
        path: row.path,
        name: row.name,
        parent_path: row.parent_path,
        size: row.size,
        is_dir: row.is_dir,
        modified_at,
        depth: row.depth,
    }
}

/// A number as the database keeps it: the upper half of the unsigned numbers turns negative.
pub open spec fn kept(n: u64) -> int {
    if n <= i64::MAX {
        n as int
    } else {
        n - 0x1_0000_0000_0000_0000
    }
}

/// A number as the database keeps it.
pub fn keep(n: u64) -> (k: i64)
    ensures
        k == kept(n),
{
    if n <= 0x7fff_ffff_ffff_ffff {
        n as i64
    } else {
        -((u64::MAX - n) as i64) - 1
    }
}

/// The totals of a scan as the database keeps them: size, files, directories.
pub fn keep_stats(stats: &ScanStats) -> (k: (i64, i64, i64))
    ensures
        k.0 == kept(stats.total_size),
        k.1 == kept(stats.total_files),
        k.2 == kept(stats.total_dirs),
{
    (keep(stats.total_size), keep(stats.total_files), keep(stats.total_dirs))
}

/// What is written of an entry.
pub struct EntryValues {
    pub path: String,
    pub name: String,
    pub parent_path: Option<String>,
    pub size: i64,
    pub is_dir: bool,
    pub modified_at: Option<String>,
    pub depth: i64,
}

/// `v` is what is written of `e`. The time of the last change is written as text, where the
/// calendar reaches it; in the years from 0 to 9999 the text reads back as the same time.
pub open spec fn writes(e: FileEntry, v: EntryValues) -> bool {
    &&& v.path == e.path
    &&& v.name == e.name
    &&& v.parent_path == e.parent_path
    &&& v.size == kept(e.size)
    &&& v.is_dir == e.is_dir
    &&& v.depth == kept(e.depth as u64)
    &&& match e.modified_at {
        Some(t) => {
            &&& v.modified_at is Some <==> has_date(t.secs, t.nanos)
            &&& v.modified_at is Some ==> v.modified_at->0@ == rfc3339_text(t.secs, t.nanos)
            &&& ordinary(t) ==> read_optional(v.modified_at) == Some(t)
        },
        None => v.modified_at is None,
    }
}

/// What is written of an entry.
pub fn entry_values(e: &FileEntry) -> (v: EntryValues)
    ensures
        writes(*e, v),
{
    let modified_at: Option<String> = match e.modified_at {
        Some(t) => to_rfc3339(t),
        None => None,
    };
    EntryValues {
        path: e.path.clone(),
        name: e.name.clone(),
        parent_path: copy_optional(&e.parent_path),
        size: keep(e.size),
        is_dir: e.is_dir,
        modified_at,
        depth: keep(e.depth as u64),
    }
}

/// An entry that was written reads back as it was, under its new number: its size where that is
/// below 2^63, and its time where that lies in the years from 0 to 9999.
pub proof fn law_entry_reads_back(e: FileEntry, v: EntryValues, id: i64, scan_id: i64)
    requires
        writes(e, v),
    ensures
        ({
            let back = entry_in(
                EntryRow {
                    id,
                    scan_id,
                    path: v.path,
                    name: v.name,
                    parent_path: v.parent_path,
                    size: v.size,
                    is_dir: v.is_dir,
                    modified_at: v.modified_at,
                    depth: v.depth,
                },
            );
            &&& back.id == id
            &&& back.scan_id == scan_id
            &&& back.path == e.path
            &&& back.name == e.name
            &&& back.parent_path == e.parent_path
            &&& back.is_dir == e.is_dir
            &&& e.size <= i64::MAX ==> back.size == e.size
            &&& e.depth <= i64::MAX ==> back.depth == e.depth
            &&& e.modified_at is None ==> back.modified_at is None
            &&& e.modified_at is Some && ordinary(e.modified_at->0) ==> back.modified_at
                == e.modified_at
        }),
{
}

/// A message to the writer of entries.
pub enum ActorMessage {
    /// Write these.
    InsertBatch(Vec<FileEntry>),
    /// Stop.
    Shutdown,
}

/// What the writer of entries does about a message.
pub enum ActorStep {
    Write(Vec<FileEntry>),
    Skip,
    Stop,
}

/// What the writer of entries does about a message: an empty batch is not written.
pub fn actor_step(message: ActorMessage) -> (step: ActorStep)
    ensures
        match message {
            ActorMessage::InsertBatch(entries) => if entries@.len() > 0 {
                step == ActorStep::Write(entries)
            } else {
                step is Skip
            },
            ActorMessage::Shutdown => step is Stop,
        },
{
    match message {
        ActorMessage::InsertBatch(entries) => if entries.len() > 0 {
            ActorStep::Write(entries)
        } else {
            ActorStep::Skip
        },
        ActorMessage::Shutdown => ActorStep::Stop,
    }
}

} // verus!
