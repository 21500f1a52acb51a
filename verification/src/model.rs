//! The planner's data model: selection entries with their metadata, the
//! working record each file moves through the pipeline in, the row the
//! filtered plan is presented as, and the rename tasks themselves.

use vstd::prelude::*;

verus! {

/// A calendar date and clock time derived from a file's modification stamp.
#[derive(Clone, Copy, PartialEq, Eq, Structural, Debug)]
pub struct CivilDateTime {
    pub year: i32,
    pub month: u8,
    pub day: u8,
    pub hour: u8,
    pub minute: u8,
    pub second: u8,
}

/// Filesystem facts about a path, gathered by the caller. A field is `None`
/// when that stamp could not be read.
#[derive(Clone, Copy, PartialEq, Eq, Structural, Debug)]
pub struct FileMeta {
    pub modified: Option<i64>,
    pub created: Option<i64>,
    pub size: u64,
}

/// One selected path, with its metadata, or `None` when the path's
/// metadata could not be read at all.
#[derive(Debug)]
pub struct SelEntry {
    pub path: String,
    pub meta: Option<FileMeta>,
}

/// One file moving through the pipeline: the immutable source path, the
/// currently computed target path, and a per-file toggle (always on for
/// now, reserved for future exclusion of single files).
#[derive(Debug)]
pub struct WorkingFile {
    pub source: String,
    pub target: String,
    pub active: bool,
}

/// One row of the plan as presented: old and new name of a file.
#[derive(Debug)]
pub struct FileStatus {
    pub old_file_name: String,
    pub new_file_name: String,
}

/// A rename task. The list order is the application order; a task whose
/// `active` flag is off is skipped entirely.
#[derive(Debug)]
pub enum Task {
    CustomText { text: String, at_start: bool, active: bool },
    FindAndReplace { find_text: String, replace_text: String, active: bool },
    ClearAll { active: bool },
    ChangeCase { case_choice: u8, active: bool },
    NumSequence {
        start_num: u64,
        num_padding: u64,
        at_start: bool,
        separator: String,
        active: bool,
    },
    Date { year: u8, month: bool, day: bool, at_start: bool, separator: String, active: bool },
    Time { at_start: bool, separator: String, active: bool },
}

impl SelEntry {
    /// An entry for a path, carrying its metadata.
    pub fn new(path: String, meta: Option<FileMeta>) -> (e: SelEntry)
        ensures
            e.path == path,
            e.meta == meta,
    {
        SelEntry { path, meta }
    }

    pub fn duplicate(&self) -> (e: SelEntry)
        ensures
            e == *self,
    {
        SelEntry { path: self.path.clone(), meta: self.meta }
    }
}

} // verus!
