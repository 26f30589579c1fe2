use vstd::prelude::*;

verus! {

/// Defines how output files will be split.
#[derive(Clone, Copy, Debug, PartialEq, Eq, Structural)]
pub enum FileSplitting {
    /// Output files won't be split.
    NoSplit,
    /// Output files will be split after at least some number of rows are written.
    SplitAfterRows(usize),
    /// Output files will be split after at least some number of bytes are written.
    SplitAfterBytes(usize),
}

impl Default for FileSplitting {
    fn default() -> (r: Self)
        ensures
            r == FileSplitting::NoSplit,
    {
        FileSplitting::NoSplit
    }
}

/// What has been written to an open file since it was opened.
#[derive(Clone, Copy, Debug, PartialEq, Eq, Structural)]
pub struct FileUsage {
    pub rows: usize,
    pub bytes: usize,
}

/// `x`, held to the range of `usize`.
pub open spec fn saturate(x: int) -> usize {
    if x > usize::MAX {
        usize::MAX as usize
    } else if x < 0 {
        0
    } else {
        x as usize
    }
}

/// The usage of a file before anything is written to it.
pub open spec fn empty_usage() -> FileUsage {
    FileUsage { rows: 0, bytes: 0 }
}

/// The usage of a file after one more record of `len` bytes.
pub open spec fn usage_after(u: FileUsage, len: nat) -> FileUsage {
    FileUsage { rows: saturate(u.rows + 1), bytes: saturate(u.bytes + len) }
}

/// Whether a file that now holds `rows` rows and `bytes` bytes is due to be closed.
pub open spec fn rotation_due(policy: FileSplitting, rows: int, bytes: int) -> bool {
    match policy {
        FileSplitting::NoSplit => false,
        FileSplitting::SplitAfterRows(n) => rows >= n,
        FileSplitting::SplitAfterBytes(n) => bytes >= n,
    }
}

/// Counts a record of `record_len` bytes just written to a file with `usage`, and
/// says whether the file is now due to be closed.
pub fn should_rotate(policy: FileSplitting, usage: FileUsage, record_len: usize) -> (r: (
    FileUsage,
    bool,
))
    ensures
        r.0 == usage_after(usage, record_len as nat),
        r.1 == rotation_due(policy, usage.rows + 1, usage.bytes + record_len),
{
    let next = FileUsage {
        rows: usage.rows.saturating_add(1),
        bytes: usage.bytes.saturating_add(record_len),
    };
    let rotate = match policy {
        FileSplitting::NoSplit => false,
        FileSplitting::SplitAfterRows(n) => next.rows >= n,
        FileSplitting::SplitAfterBytes(n) => next.bytes >= n,
    };
    (next, rotate)
}

} // verus!
