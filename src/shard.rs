use crate::split::{
    empty_usage, rotation_due, should_rotate, usage_after, FileSplitting, FileUsage,
};
use vstd::prelude::*;

verus! {

/// The state of a shard: how many files it has opened so far, and the usage of
/// the file that is open now, if any. The open file is always the one numbered
/// `sequence - 1`.
pub struct ShardState {
    pub sequence: nat,
    pub current: Option<FileUsage>,
}

/// Where one record went: the number of the file that received it, whether that
/// file was opened for it, and whether the file was complete after it.
pub struct Placement {
    pub opened: bool,
    pub file: nat,
    pub completed: bool,
}

/// The state of a shard that has seen no record.
pub open spec fn fresh_shard() -> ShardState {
    ShardState { sequence: 0, current: None }
}

/// A shard's state is coherent: a file is only open once one has been numbered.
pub open spec fn shard_state_wf(s: ShardState) -> bool {
    s.current is Some ==> s.sequence >= 1
}

/// Writes one record of `len` bytes to a shard in state `s`: a closed shard first
/// opens the file numbered `s.sequence`; after the write the split policy decides
/// whether the file is complete, which closes the shard again.
pub open spec fn shard_step(s: ShardState, policy: FileSplitting, len: nat) -> (ShardState, Placement) {
    let opened = s.current is None;
    let usage = match s.current {
        Some(u) => u,
        None => empty_usage(),
    };
    let file: nat = if opened { s.sequence } else { (s.sequence - 1) as nat };
    let completed = rotation_due(policy, usage.rows + 1, usage.bytes + len);
    (
        ShardState {
            sequence: if opened { s.sequence + 1 } else { s.sequence },
            current: if completed { None } else { Some(usage_after(usage, len)) },
        },
        Placement { opened, file, completed },
    )
}

/// The answer of a shard to one record: open file `file` first when `opened`,
/// write the record to file `file`, and complete that file afterwards when
/// `completed`.
#[derive(Clone, Copy, Debug, PartialEq, Eq, Structural)]
pub struct ShardStep {
    pub opened: bool,
    pub file: usize,
    pub completed: bool,
}

impl View for ShardStep {
    type V = Placement;

    open spec fn view(&self) -> Placement {
        Placement { opened: self.opened, file: self.file as nat, completed: self.completed }
    }
}

/// The output of one key: the numbering of its files and the file open now.
pub struct Shard {
    key: String,
    sequence: usize,
    current: Option<FileUsage>,
}

impl View for Shard {
    type V = ShardState;

    closed spec fn view(&self) -> ShardState {
        ShardState { sequence: self.sequence as nat, current: self.current }
    }
}

impl Shard {
    /// The key whose records this shard receives.
    pub closed spec fn key_view(&self) -> Seq<char> {
        self.key@
    }

    pub closed spec fn wf(&self) -> bool {
        shard_state_wf(self@)
    }

    /// A shard for `key` that has opened no file yet.
    pub fn new(key: String) -> (r: Shard)
        ensures
            r@ == fresh_shard(),
            r.key_view() == key@,
            r.wf(),
    {
        Shard { key, sequence: 0, current: None }
    }

    /// The key whose records this shard receives.
    pub fn key(&self) -> (r: &String)
        ensures
            r@ == self.key_view(),
    {
        &self.key
    }

    /// How many files this shard has opened so far.
    pub fn sequence(&self) -> (r: usize)
        ensures
            r == self@.sequence,
    {
        self.sequence
    }

    /// Whether a file of this shard is open.
    pub fn is_open(&self) -> (r: bool)
        ensures
            r == (self@.current is Some),
    {
        self.current.is_some()
    }

    /// Takes a record of `record_len` bytes under `policy` and says what happens
    /// to it: which file receives it, whether that file is opened for it, and
    /// whether it is complete afterwards.
    pub fn write_record(&mut self, policy: FileSplitting, record_len: usize) -> (r: ShardStep)
        requires
            old(self).wf(),
            old(self)@.current is Some || old(self)@.sequence < usize::MAX,
        ensures
            final(self).wf(),
            final(self).key_view() == old(self).key_view(),
            (final(self)@, r@) == shard_step(old(self)@, policy, record_len as nat),
    {
        let (usage, file, opened) = match self.current {
            Some(u) => (u, self.sequence - 1, false),
            None => {
                let file = self.sequence;
                self.sequence = self.sequence + 1;
                (FileUsage { rows: 0, bytes: 0 }, file, true)
            },
        };
        let (next, completed) = should_rotate(policy, usage, record_len);
        self.current = if completed {
            None
        } else {
            Some(next)
        };
        ShardStep { opened, file, completed }
    }

    /// Records that the file this shard just opened could not be created: the
    /// shard is closed again, and the file's number is not given out again.
    pub fn open_failed(&mut self)
        requires
            old(self).wf(),
        ensures
            final(self).wf(),
            final(self).key_view() == old(self).key_view(),
            final(self)@ == (ShardState { sequence: old(self)@.sequence, current: None }),
    {
        self.current = None;
    }

    /// Completes the open file, if any, and returns its number.
    pub fn finish(&mut self) -> (r: Option<usize>)
        requires
            old(self).wf(),
        ensures
            final(self).wf(),
            final(self).key_view() == old(self).key_view(),
            final(self)@ == (ShardState { sequence: old(self)@.sequence, current: None }),
            r matches Some(f) ==> old(self)@.current is Some && f == old(self)@.sequence - 1,
            r is None ==> old(self)@.current is None,
    {
        match self.current {
            Some(_) => {
                self.current = None;
                Some(self.sequence - 1)
            },
            None => None,
        }
    }
}

} // verus!
