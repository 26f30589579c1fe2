use crate::encode::csv_record;
use crate::registry::{
    all_closed, empty_registry, file_bytes, key_seen, lemma_step_wf, open_abandoned, registry_step,
    registry_wf, shard_of, RegistryState,
};
use crate::shard::{fresh_shard, shard_state_wf, shard_step, Placement, ShardState};
use crate::split::FileSplitting;
use vstd::arithmetic::div_mod::lemma_fundamental_div_mod_converse;
use vstd::prelude::*;

verus! {

/// The state of a shard after it took records of the given lengths, in order,
/// starting fresh.
pub open spec fn shard_run(policy: FileSplitting, lens: Seq<nat>) -> ShardState
    decreases lens.len(),
{
    if lens.len() == 0 {
        fresh_shard()
    } else {
        shard_step(shard_run(policy, lens.drop_last()), policy, lens.last()).0
    }
}

/// Where the record at position `j` of a shard's records went.
pub open spec fn placement_at(policy: FileSplitting, lens: Seq<nat>, j: int) -> Placement {
    shard_step(shard_run(policy, lens.take(j)), policy, lens[j]).1
}

/// The numbers of the files that a shard opened while it took these records, in
/// the order it opened them.
pub open spec fn opened_files(policy: FileSplitting, lens: Seq<nat>) -> Seq<nat>
    decreases lens.len(),
{
    if lens.len() == 0 {
        Seq::empty()
    } else {
        let p = shard_step(shard_run(policy, lens.drop_last()), policy, lens.last()).1;
        opened_files(policy, lens.drop_last()) + if p.opened {
            seq![p.file]
        } else {
            Seq::empty()
        }
    }
}

/// The numbers of the files that a shard completed while it took these records,
/// in the order it completed them.
pub open spec fn completed_files(policy: FileSplitting, lens: Seq<nat>) -> Seq<nat>
    decreases lens.len(),
{
    if lens.len() == 0 {
        Seq::empty()
    } else {
        let p = shard_step(shard_run(policy, lens.drop_last()), policy, lens.last()).1;
        completed_files(policy, lens.drop_last()) + if p.completed {
            seq![p.file]
        } else {
            Seq::empty()
        }
    }
}

/// The files completed by the records, followed by the one that finishing the
/// writer completes, if a file is left open.
pub open spec fn finished_files(policy: FileSplitting, lens: Seq<nat>) -> Seq<nat> {
    let s = shard_run(policy, lens);
    completed_files(policy, lens) + match s.current {
        Some(_) => seq![(s.sequence - 1) as nat],
        None => Seq::empty(),
    }
}

/// The file numbers `0, 1, ..., k - 1`.
pub open spec fn first_files(k: nat) -> Seq<nat> {
    Seq::new(k, |i: int| i as nat)
}

/// The state after the first `j + 1` records is the state after the first `j`
/// records, moved on by record `j`.
proof fn lemma_run_prefix(policy: FileSplitting, lens: Seq<nat>, j: int)
    requires
        0 <= j < lens.len(),
    ensures
        shard_run(policy, lens.take(j + 1)) == shard_step(
            shard_run(policy, lens.take(j)),
            policy,
            lens[j],
        ).0,
{
    assert(lens.take(j + 1).drop_last() =~= lens.take(j));
    assert(lens.take(j + 1).last() == lens[j]);
}

/// A shard's state stays coherent whatever records it takes.
pub proof fn lemma_run_wf(policy: FileSplitting, lens: Seq<nat>)
    ensures
        shard_state_wf(shard_run(policy, lens)),
    decreases lens.len(),
{
    if lens.len() > 0 {
        lemma_run_wf(policy, lens.drop_last());
    }
}

/// Every file that a shard produces is completed exactly once, and no file that
/// was not opened is ever completed: the files opened are numbered 0, 1, 2, ...
/// in order, each number used once; at any point the files completed are those
/// opened, in the same order, but for the one file still open, if any; and once
/// the writer finishes, the files completed are exactly the files opened.
pub proof fn lemma_each_file_completed_once(policy: FileSplitting, lens: Seq<nat>)
    ensures
        ({
            let s = shard_run(policy, lens);
            let open: nat = if s.current is Some {
                1
            } else {
                0
            };
            &&& opened_files(policy, lens) == first_files(s.sequence)
            &&& s.sequence >= open
            &&& completed_files(policy, lens) == first_files((s.sequence - open) as nat)
            &&& finished_files(policy, lens) == first_files(s.sequence)
        }),
    decreases lens.len(),
{
    lemma_run_wf(policy, lens);
    let s = shard_run(policy, lens);
    let open: nat = if s.current is Some {
        1
    } else {
        0
    };
    if lens.len() > 0 {
        let prev = lens.drop_last();
        lemma_each_file_completed_once(policy, prev);
        lemma_run_wf(policy, prev);
        assert(opened_files(policy, lens) =~= first_files(s.sequence));
        assert(completed_files(policy, lens) =~= first_files((s.sequence - open) as nat));
    }
    assert(finished_files(policy, lens) =~= first_files(s.sequence));
}

/// Without splitting, all the records of a key go to one file, number 0: it is
/// opened for the first record, no record completes it, and it is left open,
/// so that finishing the writer completes it, once.
pub proof fn lemma_no_split_one_file(lens: Seq<nat>)
    ensures
        forall|j: int|
            0 <= j < lens.len() ==> #[trigger] placement_at(FileSplitting::NoSplit, lens, j) == (
            Placement { opened: j == 0, file: 0, completed: false }),
        shard_run(FileSplitting::NoSplit, lens).sequence == if lens.len() == 0 {
            0nat
        } else {
            1nat
        },
        shard_run(FileSplitting::NoSplit, lens).current is Some <==> lens.len() > 0,
        finished_files(FileSplitting::NoSplit, lens) == if lens.len() == 0 {
            Seq::<nat>::empty()
        } else {
            seq![0nat]
        },
    decreases lens.len(),
{
    if lens.len() > 0 {
        lemma_no_split_one_file(lens.drop_last());
    }
    assert forall|j: int| 0 <= j < lens.len() implies #[trigger] placement_at(
        FileSplitting::NoSplit,
        lens,
        j,
    ) == (Placement { opened: j == 0, file: 0, completed: false }) by {
        lemma_no_split_one_file(lens.take(j));
    }
    lemma_each_file_completed_once(FileSplitting::NoSplit, lens);
    if lens.len() > 0 {
        assert(finished_files(FileSplitting::NoSplit, lens) =~= seq![0nat]);
    } else {
        assert(finished_files(FileSplitting::NoSplit, lens) =~= Seq::<nat>::empty());
    }
}

/// How many records a shard that splits after `n` rows has taken, read off its
/// state: `n` for each completed file, plus the rows of the open file.
spec fn rows_taken(s: ShardState, n: int) -> int {
    match s.current {
        Some(u) => (s.sequence - 1) * n + u.rows,
        None => s.sequence * n,
    }
}

/// After `m` records, a shard that splits after `n` rows has completed `m / n`
/// files, and holds the other `m % n` records, if any, in file `m / n`.
proof fn lemma_rows_state(n: usize, lens: Seq<nat>)
    requires
        n >= 1,
    ensures
        ({
            let s = shard_run(FileSplitting::SplitAfterRows(n), lens);
            &&& rows_taken(s, n as int) == lens.len()
            &&& s.current matches Some(u) ==> 0 < u.rows < n && s.sequence >= 1
        }),
    decreases lens.len(),
{
    if lens.len() > 0 {
        let policy = FileSplitting::SplitAfterRows(n);
        lemma_rows_state(n, lens.drop_last());
        let s0 = shard_run(policy, lens.drop_last());
        let q = s0.sequence as int;
        let ni = n as int;
        match s0.current {
            Some(u) => {
                if u.rows + 1 >= n {
                    assert((q - 1) * ni + ni == q * ni) by (nonlinear_arith);
                }
            },
            None => {
                assert(q * ni + 1 == (q + 1 - 1) * ni + 1) by (nonlinear_arith);
                if n == 1 {
                    assert(q * ni + 1 == (q + 1) * ni) by (nonlinear_arith)
                        requires
                            ni == 1,
                    ;
                }
            },
        }
    }
}

/// Splitting after `n` rows, record `j` of a key goes to file `j / n`, which is
/// opened for it when `j % n == 0` and completed after it when `j % n == n - 1`.
/// So `m` records fill `m / n` files of exactly `n` records, numbered from 0, and
/// one more file, number `m / n`, with the last `m % n` records when `m % n` is
/// not 0; that file is still open until the writer finishes.
pub proof fn lemma_rows_split(n: usize, lens: Seq<nat>)
    requires
        n >= 1,
    ensures
        forall|j: int|
            0 <= j < lens.len() ==> #[trigger] placement_at(FileSplitting::SplitAfterRows(n), lens, j)
                == (Placement {
                opened: j % (n as int) == 0,
                file: (j / (n as int)) as nat,
                completed: j % (n as int) == n - 1,
            }),
        ({
            let m = lens.len() as int;
            let s = shard_run(FileSplitting::SplitAfterRows(n), lens);
            &&& s.sequence == m / (n as int) + if m % (n as int) == 0 {
                0int
            } else {
                1int
            }
            &&& (s.current is Some <==> m % (n as int) != 0)
            &&& s.current matches Some(u) ==> u.rows == m % (n as int)
        }),
{
    let policy = FileSplitting::SplitAfterRows(n);
    let ni = n as int;
    assert forall|j: int| 0 <= j < lens.len() implies #[trigger] placement_at(policy, lens, j) == (
    Placement { opened: j % ni == 0, file: (j / ni) as nat, completed: j % ni == n - 1 }) by {
        lemma_rows_state(n, lens.take(j));
        let s = shard_run(policy, lens.take(j));
        match s.current {
            Some(u) => {
                lemma_fundamental_div_mod_converse(j, ni, s.sequence - 1, u.rows as int);
            },
            None => {
                lemma_fundamental_div_mod_converse(j, ni, s.sequence as int, 0);
            },
        }
    }
    lemma_rows_state(n, lens);
    let s = shard_run(policy, lens);
    let m = lens.len() as int;
    match s.current {
        Some(u) => {
            lemma_fundamental_div_mod_converse(m, ni, s.sequence - 1, u.rows as int);
        },
        None => {
            lemma_fundamental_div_mod_converse(m, ni, s.sequence as int, 0);
        },
    }
}

/// The bytes of a key's open file so far, or 0 when none is open.
pub open spec fn open_bytes(s: ShardState) -> nat {
    match s.current {
        Some(u) => u.bytes as nat,
        None => 0,
    }
}

/// Splitting after `n` bytes, an open file always holds fewer than `n` bytes. A
/// record completes its file exactly when the file's bytes, the record's
/// included, reach `n`; when the file is opened for the record, the count starts
/// from 0, so right after a file is completed the next file's count is the size
/// of its first record alone. A completed file thus exceeds `n` bytes by less than
/// the size of its last record.
pub proof fn lemma_bytes_split(n: usize, lens: Seq<nat>)
    requires
        n >= 1,
    ensures
        forall|j: int|
            #![trigger placement_at(FileSplitting::SplitAfterBytes(n), lens, j)]
            0 <= j < lens.len() ==> {
                let policy = FileSplitting::SplitAfterBytes(n);
                let before = shard_run(policy, lens.take(j));
                let p = placement_at(policy, lens, j);
                &&& open_bytes(before) < n
                &&& p.opened ==> open_bytes(before) == 0
                &&& p.completed == (open_bytes(before) + lens[j] >= n)
                &&& !p.completed ==> open_bytes(shard_run(policy, lens.take(j + 1))) == open_bytes(
                    before,
                ) + lens[j]
            },
        open_bytes(shard_run(FileSplitting::SplitAfterBytes(n), lens)) < n,
{
    let policy = FileSplitting::SplitAfterBytes(n);
    assert forall|j: int|
        #![trigger placement_at(policy, lens, j)]
        0 <= j < lens.len() implies {
        let before = shard_run(policy, lens.take(j));
        let p = placement_at(policy, lens, j);
        &&& open_bytes(before) < n
        &&& p.opened ==> open_bytes(before) == 0
        &&& p.completed == (open_bytes(before) + lens[j] >= n)
        &&& !p.completed ==> open_bytes(shard_run(policy, lens.take(j + 1))) == open_bytes(before)
            + lens[j]
    } by {
        lemma_open_bytes_below(n, lens.take(j));
        lemma_run_prefix(policy, lens, j);
    }
    lemma_open_bytes_below(n, lens);
}

/// Splitting after `n` bytes, an open file holds fewer than `n` bytes.
proof fn lemma_open_bytes_below(n: usize, lens: Seq<nat>)
    requires
        n >= 1,
    ensures
        open_bytes(shard_run(FileSplitting::SplitAfterBytes(n), lens)) < n,
    decreases lens.len(),
{
    if lens.len() > 0 {
        lemma_open_bytes_below(n, lens.drop_last());
    }
}

/// The registry after it took records, each given as its key and its length in
/// bytes, in order, starting with no key seen.
pub open spec fn registry_run(policy: FileSplitting, records: Seq<(Seq<char>, nat)>) -> RegistryState
    decreases records.len(),
{
    if records.len() == 0 {
        empty_registry()
    } else {
        let (key, len) = records.last();
        registry_step(registry_run(policy, records.drop_last()), policy, key, len).0
    }
}

/// The lengths of the records with key `key`, in order.
pub open spec fn lens_of(records: Seq<(Seq<char>, nat)>, key: Seq<char>) -> Seq<nat>
    decreases records.len(),
{
    if records.len() == 0 {
        Seq::empty()
    } else {
        let rest = lens_of(records.drop_last(), key);
        if records.last().0 == key {
            rest.push(records.last().1)
        } else {
            rest
        }
    }
}

/// The lengths of the records with a key among the first `t` records are the
/// first of the lengths of all the records with that key.
proof fn lemma_lens_of_prefix(records: Seq<(Seq<char>, nat)>, key: Seq<char>, t: int)
    requires
        0 <= t <= records.len(),
    ensures
        lens_of(records.take(t), key).len() <= lens_of(records, key).len(),
        lens_of(records, key).take(lens_of(records.take(t), key).len() as int) == lens_of(
            records.take(t),
            key,
        ),
    decreases records.len(),
{
    if t == records.len() {
        assert(records.take(t) =~= records);
        assert(lens_of(records, key).take(lens_of(records, key).len() as int) =~= lens_of(
            records,
            key,
        ));
    } else {
        let prev = records.drop_last();
        lemma_lens_of_prefix(prev, key, t);
        assert(prev.take(t) =~= records.take(t));
        let c = lens_of(records.take(t), key).len() as int;
        assert(lens_of(records, key).take(c) =~= lens_of(prev, key).take(c));
    }
}

/// Each key's shard sees the records with that key and no other: after any
/// records, the shard of a key is in the state that the key's own records, in
/// order, lead to from fresh, and a key has been seen exactly when one of the
/// records had it.
pub proof fn lemma_keys_isolated(policy: FileSplitting, records: Seq<(Seq<char>, nat)>, key: Seq<char>)
    ensures
        registry_wf(registry_run(policy, records)),
        shard_of(registry_run(policy, records), key) == shard_run(policy, lens_of(records, key)),
        key_seen(registry_run(policy, records), key) <==> lens_of(records, key).len() > 0,
    decreases records.len(),
{
    if records.len() > 0 {
        let prev = records.drop_last();
        let (k, len) = records.last();
        lemma_keys_isolated(policy, prev, key);
        lemma_step_wf(registry_run(policy, prev), policy, k, len);
        if k == key {
            let lens = lens_of(records, key);
            assert(lens.drop_last() =~= lens_of(prev, key));
        }
    }
}

/// A record goes where the key's own records would send it: record `i`, whose
/// key had `j` records before it, is placed as record `j` of that key alone.
pub proof fn lemma_record_placement(policy: FileSplitting, records: Seq<(Seq<char>, nat)>, i: int)
    requires
        0 <= i < records.len(),
    ensures
        ({
            let (key, len) = records[i];
            let j = lens_of(records.take(i), key).len() as int;
            registry_step(registry_run(policy, records.take(i)), policy, key, len).1 == placement_at(
                policy,
                lens_of(records, key),
                j,
            )
        }),
{
    let (key, len) = records[i];
    let before = lens_of(records.take(i), key);
    let upto = lens_of(records.take(i + 1), key);
    let all = lens_of(records, key);
    let j = before.len() as int;
    assert(records.take(i + 1).drop_last() =~= records.take(i));
    assert(upto == before.push(len));
    lemma_lens_of_prefix(records, key, i + 1);
    assert(all.take(j) =~= before);
    assert(all[j] == upto[j]);
    lemma_keys_isolated(policy, records.take(i), key);
}

/// Once a key has been seen it stays seen: taking a record, giving up a file
/// that could not be created, and finishing all keep every key seen; and the key
/// of a record taken is seen afterwards.
pub proof fn lemma_seen_stays(r: RegistryState, policy: FileSplitting, key: Seq<char>, len: nat, other: Seq<char>)
    ensures
        key_seen(registry_step(r, policy, key, len).0, key),
        key_seen(r, other) ==> key_seen(registry_step(r, policy, key, len).0, other),
        key_seen(r, other) ==> key_seen(open_abandoned(r, key), other),
        key_seen(r, other) ==> key_seen(all_closed(r), other),
{
}

/// With a header configured, every file starts with the header record, encoded
/// the same way for every file of every key: the bytes for a record that opens a
/// file begin with the header's bytes, and a record written to a file already
/// open brings its own bytes alone.
pub proof fn lemma_header_first(header: Seq<Seq<char>>, fields: Seq<Seq<char>>, delimiter: u8)
    ensures
        file_bytes(Some(header), fields, delimiter, true).take(
            csv_record(header, delimiter).len() as int,
        ) == csv_record(header, delimiter),
        file_bytes(Some(header), fields, delimiter, false) == csv_record(fields, delimiter),
{
    assert(file_bytes(Some(header), fields, delimiter, true).take(
        csv_record(header, delimiter).len() as int,
    ) =~= csv_record(header, delimiter));
}

/// Taking one more record moves a run on by one step: a registry that has taken
/// `records` from no key seen, and then takes a record with key `key` and `len`
/// bytes, is in the state of the run over `records` followed by that record, and
/// places the record as the key's own records place it.
pub proof fn lemma_run_extends(
    policy: FileSplitting,
    records: Seq<(Seq<char>, nat)>,
    key: Seq<char>,
    len: nat,
)
    ensures
        registry_run(policy, records.push((key, len))) == registry_step(
            registry_run(policy, records),
            policy,
            key,
            len,
        ).0,
        registry_step(registry_run(policy, records), policy, key, len).1 == placement_at(
            policy,
            lens_of(records.push((key, len)), key),
            lens_of(records, key).len() as int,
        ),
{
    let all = records.push((key, len));
    assert(all.drop_last() =~= records);
    assert(all.take(records.len() as int) =~= records);
    lemma_record_placement(policy, all, records.len() as int);
}

} // verus!
