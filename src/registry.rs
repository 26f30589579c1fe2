use crate::encode::{csv_record, encode_record, fields_view};
use crate::error::ShardError;
use crate::shard::{fresh_shard, shard_state_wf, shard_step, Placement, Shard, ShardState, ShardStep};
use crate::split::FileSplitting;
use vstd::prelude::*;

verus! {

/// The shards of a writer: the keys in the order they were first seen, and the
/// state of each key's shard.
pub struct RegistryState {
    pub keys: Seq<Seq<char>>,
    pub shards: Map<Seq<char>, ShardState>,
}

/// A registry that has seen no key.
pub open spec fn empty_registry() -> RegistryState {
    RegistryState { keys: Seq::empty(), shards: Map::empty() }
}

/// The state of the shard for `key`; a key not seen yet has a fresh shard.
pub open spec fn shard_of(r: RegistryState, key: Seq<char>) -> ShardState {
    if r.shards.contains_key(key) {
        r.shards[key]
    } else {
        fresh_shard()
    }
}

/// Whether `key` has been seen.
pub open spec fn key_seen(r: RegistryState, key: Seq<char>) -> bool {
    r.shards.contains_key(key)
}

/// Routes a record of `len` bytes with key `key`: the key's shard is found, or
/// created and listed after the keys seen before, and takes the record.
pub open spec fn registry_step(r: RegistryState, policy: FileSplitting, key: Seq<char>, len: nat) -> (
    RegistryState,
    Placement,
) {
    let (s, p) = shard_step(shard_of(r, key), policy, len);
    (
        RegistryState {
            keys: if key_seen(r, key) {
                r.keys
            } else {
                r.keys.push(key)
            },
            shards: r.shards.insert(key, s),
        },
        p,
    )
}

/// Whether a record with key `key` would need a new file while its shard has
/// used up every file number.
pub open spec fn sequence_exhausted(r: RegistryState, key: Seq<char>) -> bool {
    let s = shard_of(r, key);
    s.current is None && s.sequence >= usize::MAX
}

/// The bytes that go to a file for one record: the header record first when the
/// file was opened for this record and a header is configured, then the record.
pub open spec fn file_bytes(
    header: Option<Seq<Seq<char>>>,
    fields: Seq<Seq<char>>,
    delimiter: u8,
    opened: bool,
) -> Seq<u8> {
    match header {
        Some(h) if opened => csv_record(h, delimiter) + csv_record(fields, delimiter),
        _ => csv_record(fields, delimiter),
    }
}

/// The open files among the shards of `keys`, in the order of `keys`: each as
/// its key and its file number.
pub open spec fn open_files(keys: Seq<Seq<char>>, shards: Map<Seq<char>, ShardState>) -> Seq<
    (Seq<char>, nat),
>
    decreases keys.len(),
{
    if keys.len() == 0 {
        Seq::empty()
    } else {
        let k = keys.last();
        let rest = open_files(keys.drop_last(), shards);
        match shards[k].current {
            Some(_) => rest.push((k, (shards[k].sequence - 1) as nat)),
            None => rest,
        }
    }
}

/// Every shard closed, with its numbering kept.
pub open spec fn all_closed(r: RegistryState) -> RegistryState {
    RegistryState {
        keys: r.keys,
        shards: r.shards.map_values(|s: ShardState| ShardState { sequence: s.sequence, current: None }),
    }
}

/// The registry after the file just opened for `key` could not be created: the
/// key's shard is closed again and keeps its numbering.
pub open spec fn open_abandoned(r: RegistryState, key: Seq<char>) -> RegistryState {
    if key_seen(r, key) {
        RegistryState {
            keys: r.keys,
            shards: r.shards.insert(key, ShardState { sequence: r.shards[key].sequence, current: None }),
        }
    } else {
        r
    }
}

/// The files listed as key and file number.
pub open spec fn files_view(files: Seq<(String, usize)>) -> Seq<(Seq<char>, nat)> {
    files.map_values(|f: (String, usize)| (f.0@, f.1 as nat))
}

/// The coherence of a registry state: each seen key is listed once, and every
/// shard's state is coherent.
pub open spec fn registry_wf(r: RegistryState) -> bool {
    &&& r.keys.no_duplicates()
    &&& forall|k: Seq<char>| #[trigger] r.shards.contains_key(k) <==> r.keys.contains(k)
    &&& forall|k: Seq<char>| #[trigger] r.shards.contains_key(k) ==> shard_state_wf(r.shards[k])
}

/// A step keeps the registry's state coherent.
pub proof fn lemma_step_wf(r: RegistryState, policy: FileSplitting, key: Seq<char>, len: nat)
    requires
        registry_wf(r),
    ensures
        registry_wf(registry_step(r, policy, key, len).0),
{
    let r1 = registry_step(r, policy, key, len).0;
    if !key_seen(r, key) {
        assert forall|q: Seq<char>| #[trigger] r1.keys.contains(q) <==> r.keys.contains(q) || q == key by {
            if q == key {
                assert(r1.keys[r1.keys.len() - 1] == q);
            }
            if r.keys.contains(q) {
                let j = choose|j: int| 0 <= j < r.keys.len() && r.keys[j] == q;
                assert(r1.keys[j] == q);
            }
            if r1.keys.contains(q) {
                let j = choose|j: int| 0 <= j < r1.keys.len() && r1.keys[j] == q;
                if j < r.keys.len() {
                    assert(r.keys[j] == q);
                }
            }
        }
    }
}

/// The shards of a writer, one per key seen, with the configuration that all of
/// them share: the split policy, the field delimiter of the output, and the
/// header record that starts every output file.
pub struct ShardRegistry {
    splitting: FileSplitting,
    delimiter: u8,
    header: Option<Vec<String>>,
    shards: Vec<Shard>,
    state: Ghost<RegistryState>,
}

impl View for ShardRegistry {
    type V = RegistryState;

    closed spec fn view(&self) -> RegistryState {
        self.state@
    }
}

impl ShardRegistry {
    /// The split policy shared by all shards.
    pub closed spec fn spec_splitting(&self) -> FileSplitting {
        self.splitting
    }

    /// The field delimiter of the output.
    pub closed spec fn spec_delimiter(&self) -> u8 {
        self.delimiter
    }

    /// The fields of the header record, if one is configured.
    pub closed spec fn spec_header(&self) -> Option<Seq<Seq<char>>> {
        match self.header {
            Some(h) => Some(fields_view(h@)),
            None => None,
        }
    }

    pub closed spec fn wf(&self) -> bool {
        &&& registry_wf(self@)
        &&& self.shards@.len() == self@.keys.len()
        &&& forall|i: int|
            0 <= i < self.shards@.len() ==> {
                &&& (#[trigger] self.shards@[i]).key_view() == self@.keys[i]
                &&& self.shards@[i]@ == self@.shards[self@.keys[i]]
                &&& self.shards@[i].wf()
            }
    }

    /// A registry with no shard yet, that writes no header, with no splitting
    /// and `,` as the field delimiter.
    pub fn new(header: Option<Vec<String>>) -> (r: ShardRegistry)
        ensures
            r.wf(),
            registry_wf(r@),
            r@ == empty_registry(),
            r.spec_splitting() == FileSplitting::NoSplit,
            r.spec_delimiter() == 44u8,
            r.spec_header() == (match header {
                Some(h) => Some(fields_view(h@)),
                None => None,
            }),
    {
        ShardRegistry {
            splitting: FileSplitting::NoSplit,
            delimiter: 44u8,
            header,
            shards: Vec::new(),
            state: Ghost(empty_registry()),
        }
    }

    /// The same registry with another split policy.
    pub fn with_output_splitting(self, splitting: FileSplitting) -> (r: ShardRegistry)
        requires
            self.wf(),
        ensures
            r.wf(),
            registry_wf(r@),
            r@ == self@,
            r.spec_splitting() == splitting,
            r.spec_delimiter() == self.spec_delimiter(),
            r.spec_header() == self.spec_header(),
    {
        ShardRegistry { splitting, ..self }
    }

    /// The same registry with another field delimiter for the output.
    pub fn with_delimiter(self, delimiter: u8) -> (r: ShardRegistry)
        requires
            self.wf(),
        ensures
            r.wf(),
            registry_wf(r@),
            r@ == self@,
            r.spec_splitting() == self.spec_splitting(),
            r.spec_delimiter() == delimiter,
            r.spec_header() == self.spec_header(),
    {
        ShardRegistry { delimiter, ..self }
    }

    /// The split policy shared by all shards.
    pub fn splitting(&self) -> (r: FileSplitting)
        ensures
            r == self.spec_splitting(),
    {
        self.splitting
    }

    /// The field delimiter of the output.
    pub fn delimiter(&self) -> (r: u8)
        ensures
            r == self.spec_delimiter(),
    {
        self.delimiter
    }

    /// The position of `key` among the keys seen, if it has been seen.
    fn find(&self, key: &String) -> (r: Option<usize>)
        requires
            self.wf(),
        ensures
            match r {
                Some(i) => i < self@.keys.len() && self@.keys[i as int] == key@,
                None => !self@.keys.contains(key@),
            },
    {
        let mut i: usize = 0;
        while i < self.shards.len()
            invariant
                self.wf(),
                i <= self.shards@.len(),
                forall|j: int| 0 <= j < i ==> self@.keys[j] != key@,
            decreases self.shards@.len() - i,
        {
            let found = self.shards[i].key().eq(key);
            assert(self.shards@[i as int].key_view() == self@.keys[i as int]);
            if found {
                return Some(i);
            }
            i = i + 1;
        }
        None
    }

    /// Whether `key` has been seen.
    pub fn is_shard_key_seen(&self, key: &str) -> (r: bool)
        requires
            self.wf(),
        ensures
            registry_wf(self@),
            r == key_seen(self@, key@),
    {
        let key = key.to_owned();
        self.find(&key).is_some()
    }
    /// The keys seen so far, in the order they were first seen.
    pub fn shard_keys_seen(&self) -> (r: Vec<String>)
        requires
            self.wf(),
        ensures
            registry_wf(self@),
            fields_view(r@) == self@.keys,
    {
        let mut keys: Vec<String> = Vec::new();
        let mut i: usize = 0;
        while i < self.shards.len()
            invariant
                self.wf(),
                i <= self.shards@.len(),
                fields_view(keys@) == self@.keys.take(i as int),
            decreases self.shards@.len() - i,
        {
            let ghost before = keys@;
            let k = self.shards[i].key().clone();
            keys.push(k);
            proof {
                assert(self.shards@[i as int].key_view() == self@.keys[i as int]);
                assert(keys@ == before.push(k));
                assert(fields_view(keys@) =~= fields_view(before).push(k@));
                assert(fields_view(keys@) =~= self@.keys.take(i + 1));
            }
            i = i + 1;
        }
        proof {
            assert(self@.keys.take(self.shards@.len() as int) =~= self@.keys);
        }
        keys
    }

    /// Takes a record with key `key` and fields `fields`, and says what the caller
    /// must do with it: when `r.0.opened`, create file number `r.0.file` of `key`;
    /// append the bytes `r.1` to that file; when `r.0.completed`, flush and release
    /// the file and report it complete.
    ///
    /// A file is opened for the record when the key's shard has none open; the
    /// bytes then start with the header record, if one is configured. The split
    /// policy decides after the record whether the file is complete. The record
    /// is taken unless it needs a new file while its key has used up every file
    /// number; then nothing changes.
    pub fn write_record(&mut self, key: String, fields: &Vec<String>) -> (r: Result<
        (ShardStep, Vec<u8>),
        ShardError,
    >)
        requires
            old(self).wf(),
        ensures
            final(self).wf(),
            final(self).spec_splitting() == old(self).spec_splitting(),
            final(self).spec_delimiter() == old(self).spec_delimiter(),
            final(self).spec_header() == old(self).spec_header(),
            registry_wf(final(self)@),
            r is Ok <==> !sequence_exhausted(old(self)@, key@),
            r matches Err(e) ==> e is SequenceExhausted && final(self)@ == old(self)@,
            r matches Ok((step, bytes)) ==> {
                let fields = fields_view(fields@);
                let len = csv_record(fields, old(self).spec_delimiter()).len();
                &&& (final(self)@, step@) == registry_step(
                    old(self)@,
                    old(self).spec_splitting(),
                    key@,
                    len,
                )
                &&& bytes@ == file_bytes(
                    old(self).spec_header(),
                    fields,
                    old(self).spec_delimiter(),
                    step.opened,
                )
            },
    {
        let ghost k = key@;
        let found = self.find(&key);
        let opening = match found {
            Some(i) => {
                assert(self.shards@[i as int]@ == self@.shards[k]);
                !self.shards[i].is_open()
            },
            None => true,
        };
        if let Some(i) = found {
            if opening && self.shards[i].sequence() == usize::MAX {
                return Err(ShardError::SequenceExhausted);
            }
        }
        let mut record = match encode_record(fields, self.delimiter) {
            Ok(b) => b,
            Err(e) => return Err(ShardError::Csv(e)),
        };
        let mut bytes = match (&self.header, opening) {
            (Some(h), true) => match encode_record(h, self.delimiter) {
                Ok(b) => b,
                Err(e) => return Err(ShardError::Csv(e)),
            },
            _ => Vec::new(),
        };
        let record_len = record.len();
        assert(record_len == csv_record(fields_view(fields@), self.delimiter).len());
        bytes.append(&mut record);
        let idx = match found {
            Some(i) => i,
            None => {
                self.shards.push(Shard::new(key));
                self.state = Ghost(
                    RegistryState {
                        keys: self@.keys.push(k),
                        shards: self@.shards.insert(k, fresh_shard()),
                    },
                );
                proof {
                    assert forall|j: int| 0 <= j < self.shards@.len() implies {
                        &&& (#[trigger] self.shards@[j]).key_view() == self@.keys[j]
                        &&& self.shards@[j]@ == self@.shards[self@.keys[j]]
                        &&& self.shards@[j].wf()
                    } by {
                        if j < self.shards@.len() - 1 {
                            assert(old(self).shards@[j] == self.shards@[j]);
                            assert(old(self)@.keys.contains(self@.keys[j]));
                        }
                    }
                }
                self.shards.len() - 1
            },
        };
        proof {
            assert(self.shards@[idx as int].key_view() == k);
            assert(self@.keys[idx as int] == k);
            assert(self@.keys.contains(k));
            assert(self.shards@[idx as int]@ == shard_of(old(self)@, k));
        }
        let ghost mid = self.shards@;
        let step = self.shards[idx].write_record(self.splitting, record_len);
        self.state = Ghost(
            RegistryState { keys: self@.keys, shards: self@.shards.insert(k, self.shards@[idx as int]@) },
        );
        proof {
            assert forall|j: int| 0 <= j < self.shards@.len() implies {
                &&& (#[trigger] self.shards@[j]).key_view() == self@.keys[j]
                &&& self.shards@[j]@ == self@.shards[self@.keys[j]]
                &&& self.shards@[j].wf()
            } by {
                if j != idx {
                    assert(mid[j] == self.shards@[j]);
                    assert(self@.keys[j] != k);
                }
            }
            assert(self@.keys =~= registry_step(old(self)@, self.splitting, k, record_len as nat).0.keys);
            assert(self@.shards =~= old(self)@.shards.insert(k, self.shards@[idx as int]@));
            lemma_step_wf(old(self)@, self.splitting, k, record_len as nat);
            assert((self@, step@) == registry_step(old(self)@, self.splitting, k, record_len as nat));
        }
        Ok((step, bytes))
    }
    /// Records that the file that the last step opened for `key` could not be
    /// created: the key's shard is closed again, and the file's number is not
    /// given out again.
    pub fn open_failed(&mut self, key: &String)
        requires
            old(self).wf(),
        ensures
            final(self).wf(),
            final(self).spec_splitting() == old(self).spec_splitting(),
            final(self).spec_delimiter() == old(self).spec_delimiter(),
            final(self).spec_header() == old(self).spec_header(),
            registry_wf(final(self)@),
            final(self)@ == open_abandoned(old(self)@, key@),
    {
        if let Some(i) = self.find(key) {
            let ghost before = self.shards@;
            proof {
                assert(self@.keys.contains(key@));
            }
            self.shards[i].open_failed();
            self.state = Ghost(
                RegistryState {
                    keys: self@.keys,
                    shards: self@.shards.insert(key@, self.shards@[i as int]@),
                },
            );
            proof {
                assert forall|j: int| 0 <= j < self.shards@.len() implies {
                    &&& (#[trigger] self.shards@[j]).key_view() == self@.keys[j]
                    &&& self.shards@[j]@ == self@.shards[self@.keys[j]]
                    &&& self.shards@[j].wf()
                } by {
                    if j != i {
                        assert(before[j] == self.shards@[j]);
                        assert(self@.keys[j] != key@);
                    }
                }
                assert(self@.shards =~= open_abandoned(old(self)@, key@).shards);
            }
        }
    }

    /// Completes every open file, as when the writer is done: each shard is
    /// closed and keeps its numbering, and the files that were open are returned
    /// as key and file number, in the order in which the keys were first seen.
    pub fn finish(&mut self) -> (r: Vec<(String, usize)>)
        requires
            old(self).wf(),
        ensures
            final(self).wf(),
            final(self).spec_splitting() == old(self).spec_splitting(),
            final(self).spec_delimiter() == old(self).spec_delimiter(),
            final(self).spec_header() == old(self).spec_header(),
            registry_wf(old(self)@),
            registry_wf(final(self)@),
            final(self)@ == all_closed(old(self)@),
            files_view(r@) == open_files(old(self)@.keys, old(self)@.shards),
    {
        let ghost start = self@;
        let mut done: Vec<(String, usize)> = Vec::new();
        let mut i: usize = 0;
        while i < self.shards.len()
            invariant
                self@ == start,
                self.splitting == old(self).splitting,
                self.delimiter == old(self).delimiter,
                self.header == old(self).header,
                registry_wf(start),
                self.shards@.len() == start.keys.len(),
                i <= self.shards@.len(),
                forall|j: int|
                    0 <= j < self.shards@.len() ==> {
                        &&& (#[trigger] self.shards@[j]).key_view() == start.keys[j]
                        &&& self.shards@[j].wf()
                        &&& self.shards@[j]@ == if j < i {
                            all_closed(start).shards[start.keys[j]]
                        } else {
                            start.shards[start.keys[j]]
                        }
                    },
                files_view(done@) == open_files(start.keys.take(i as int), start.shards),
            decreases self.shards@.len() - i,
        {
            let ghost before = self.shards@;
            let ghost before_done = done@;
            assert(start.keys.contains(start.keys[i as int]));
            let closed = self.shards[i].finish();
            if let Some(file) = closed {
                let k = self.shards[i].key().clone();
                done.push((k, file));
            }
            proof {
                assert forall|j: int| 0 <= j < self.shards@.len() && j != i implies self.shards@[j]
                    == before[j] by {}
                let keys = start.keys.take(i + 1);
                assert(keys.drop_last() =~= start.keys.take(i as int));
                assert(keys.last() == start.keys[i as int]);
                if closed is Some {
                    assert(done@ == before_done.push(done@.last()));
                    assert(files_view(done@) =~= files_view(before_done).push(
                        files_view(done@).last(),
                    ));
                } else {
                    assert(done@ == before_done);
                }
            }
            i = i + 1;
        }
        self.state = Ghost(all_closed(start));
        proof {
            assert(start.keys.take(self.shards@.len() as int) =~= start.keys);
            assert forall|k: Seq<char>| #[trigger] self@.shards.contains_key(k) implies shard_state_wf(
                self@.shards[k],
            ) by {}
        }
        done
    }
}

} // verus!
