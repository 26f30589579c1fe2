use shard_csv::{should_rotate, FileSplitting, FileUsage, Shard, ShardRegistry, ShardStep};

fn rec(fields: &[&str]) -> Vec<String> {
    fields.iter().map(|f| f.to_string()).collect()
}

fn step(opened: bool, file: usize, completed: bool) -> ShardStep {
    ShardStep { opened, file, completed }
}

#[test]
fn default_splitting_is_no_split() {
    assert_eq!(FileSplitting::default(), FileSplitting::NoSplit);
}

#[test]
fn should_rotate_counts_rows() {
    let u = FileUsage { rows: 1, bytes: 10 };
    let (next, rotate) = should_rotate(FileSplitting::SplitAfterRows(3), u, 5);
    assert_eq!(next, FileUsage { rows: 2, bytes: 15 });
    assert!(!rotate);
    let (next, rotate) = should_rotate(FileSplitting::SplitAfterRows(3), next, 5);
    assert_eq!(next, FileUsage { rows: 3, bytes: 20 });
    assert!(rotate);
}

#[test]
fn should_rotate_counts_bytes() {
    let u = FileUsage { rows: 0, bytes: 0 };
    let (next, rotate) = should_rotate(FileSplitting::SplitAfterBytes(10), u, 9);
    assert_eq!(next.bytes, 9);
    assert!(!rotate);
    let (next, rotate) = should_rotate(FileSplitting::SplitAfterBytes(10), next, 1);
    assert_eq!(next.bytes, 10);
    assert!(rotate);
}

#[test]
fn should_rotate_never_without_splitting() {
    let u = FileUsage { rows: 1_000_000, bytes: usize::MAX };
    let (next, rotate) = should_rotate(FileSplitting::NoSplit, u, 7);
    assert!(!rotate);
    assert_eq!(next, FileUsage { rows: 1_000_001, bytes: usize::MAX });
}

#[test]
fn shard_without_splitting_keeps_one_file() {
    let mut s = Shard::new("k".to_string());
    assert_eq!(s.write_record(FileSplitting::NoSplit, 4), step(true, 0, false));
    for _ in 0..5 {
        assert_eq!(s.write_record(FileSplitting::NoSplit, 4), step(false, 0, false));
    }
    assert!(s.is_open());
    assert_eq!(s.sequence(), 1);
    assert_eq!(s.finish(), Some(0));
    assert_eq!(s.finish(), None);
}

#[test]
fn shard_splits_after_rows() {
    let policy = FileSplitting::SplitAfterRows(3);
    let mut s = Shard::new("k".to_string());
    let steps: Vec<ShardStep> = (0..7).map(|_| s.write_record(policy, 1)).collect();
    let expected: Vec<ShardStep> = (0..7usize)
        .map(|j| step(j % 3 == 0, j / 3, j % 3 == 2))
        .collect();
    assert_eq!(steps, expected);
    // Seven records in files of three: 0 and 1 full, 2 holds one and is open.
    assert_eq!(s.sequence(), 3);
    assert_eq!(s.finish(), Some(2));
}

#[test]
fn shard_rows_evenly_divisible_leaves_nothing_open() {
    let policy = FileSplitting::SplitAfterRows(2);
    let mut s = Shard::new("k".to_string());
    for _ in 0..4 {
        s.write_record(policy, 1);
    }
    assert_eq!(s.sequence(), 2);
    assert!(!s.is_open());
    assert_eq!(s.finish(), None);
}

#[test]
fn shard_splits_after_bytes() {
    let policy = FileSplitting::SplitAfterBytes(10);
    let mut s = Shard::new("k".to_string());
    assert_eq!(s.write_record(policy, 4), step(true, 0, false));
    assert_eq!(s.write_record(policy, 5), step(false, 0, false));
    // 4 + 5 + 3 = 12 reaches 10: complete, exceeding by less than this record.
    assert_eq!(s.write_record(policy, 3), step(false, 0, true));
    // The next file counts from this record's own size.
    assert_eq!(s.write_record(policy, 9), step(true, 1, false));
    assert_eq!(s.write_record(policy, 1), step(false, 1, true));
    // A single oversized record gets a file to itself.
    assert_eq!(s.write_record(policy, 50), step(true, 2, true));
    assert_eq!(s.finish(), None);
    assert_eq!(s.sequence(), 3);
}

#[test]
fn shard_open_failure_does_not_reuse_the_number() {
    let policy = FileSplitting::SplitAfterRows(5);
    let mut s = Shard::new("k".to_string());
    assert_eq!(s.write_record(policy, 1), step(true, 0, false));
    s.open_failed();
    assert!(!s.is_open());
    assert_eq!(s.write_record(policy, 1), step(true, 1, false));
}

#[test]
fn registry_encodes_records_with_csv() {
    let mut r = ShardRegistry::new(None);
    let (st, bytes) = r.write_record("k".to_string(), &rec(&["a", "b,c", "d"])).unwrap();
    assert_eq!(st, step(true, 0, false));
    assert_eq!(bytes, b"a,\"b,c\",d\n".to_vec());
    let mut r = ShardRegistry::new(None).with_delimiter(b';');
    let (_, bytes) = r.write_record("k".to_string(), &rec(&["a", "b,c"])).unwrap();
    assert_eq!(bytes, b"a;b,c\n".to_vec());
    assert_eq!(r.delimiter(), b';');
}

#[test]
fn registry_counts_encoded_bytes_for_splitting() {
    // "ab,c\n" is 5 bytes; the header is not counted.
    let mut r = ShardRegistry::new(Some(rec(&["h1", "h2"])))
        .with_output_splitting(FileSplitting::SplitAfterBytes(10));
    let (st, bytes) = r.write_record("k".to_string(), &rec(&["ab", "c"])).unwrap();
    assert_eq!(st, step(true, 0, false));
    assert_eq!(bytes, b"h1,h2\nab,c\n".to_vec());
    let (st, bytes) = r.write_record("k".to_string(), &rec(&["ab", "c"])).unwrap();
    assert_eq!(st, step(false, 0, true));
    assert_eq!(bytes, b"ab,c\n".to_vec());
}

#[test]
fn registry_scenario_two_keys_split_after_two_rows() {
    let mut r = ShardRegistry::new(Some(rec(&["H"])))
        .with_output_splitting(FileSplitting::SplitAfterRows(2));
    let input = [("a", "r1"), ("b", "r2"), ("a", "r3"), ("a", "r4"), ("b", "r5")];
    let mut out = Vec::new();
    for (key, field) in input.iter() {
        out.push(r.write_record(key.to_string(), &rec(&[field])).unwrap());
    }
    assert_eq!(out[0], (step(true, 0, false), b"H\nr1\n".to_vec()));
    assert_eq!(out[1], (step(true, 0, false), b"H\nr2\n".to_vec()));
    assert_eq!(out[2], (step(false, 0, true), b"r3\n".to_vec()));
    assert_eq!(out[3], (step(true, 1, false), b"H\nr4\n".to_vec()));
    assert_eq!(out[4], (step(false, 0, true), b"r5\n".to_vec()));
    // Files: a-0 = H r1 r3, b-0 = H r2 r5 (both complete), a-1 = H r4, open.
    assert_eq!(r.finish(), vec![("a".to_string(), 1)]);
    assert_eq!(r.finish(), vec![]);
    assert_eq!(r.shard_keys_seen(), rec(&["a", "b"]));
}

#[test]
fn registry_finish_lists_open_files_in_first_seen_order() {
    let mut r = ShardRegistry::new(None);
    for key in ["z", "m", "a", "m"] {
        r.write_record(key.to_string(), &rec(&["x"])).unwrap();
    }
    let done = r.finish();
    assert_eq!(
        done,
        vec![("z".to_string(), 0), ("m".to_string(), 0), ("a".to_string(), 0)]
    );
    // Writing after finishing continues the numbering.
    let (st, _) = r.write_record("m".to_string(), &rec(&["x"])).unwrap();
    assert_eq!(st, step(true, 1, false));
}

#[test]
fn registry_key_seen_never_reverts() {
    let mut r = ShardRegistry::new(None);
    let k = "new".to_string();
    assert!(!r.is_shard_key_seen(&k));
    r.write_record(k.clone(), &rec(&["1"])).unwrap();
    assert!(r.is_shard_key_seen(&k));
    r.write_record("other".to_string(), &rec(&["2"])).unwrap();
    assert!(r.is_shard_key_seen(&k));
    r.finish();
    assert!(r.is_shard_key_seen(&k));
    assert!(!r.is_shard_key_seen("absent"));
}

#[test]
fn registry_open_failure_keeps_key_and_numbering() {
    let mut r = ShardRegistry::new(None);
    let k = "k".to_string();
    let (st, _) = r.write_record(k.clone(), &rec(&["1"])).unwrap();
    assert_eq!(st, step(true, 0, false));
    r.open_failed(&k);
    assert!(r.is_shard_key_seen(&k));
    assert_eq!(r.finish(), vec![]);
    let (st, _) = r.write_record(k.clone(), &rec(&["2"])).unwrap();
    assert_eq!(st, step(true, 1, false));
}

#[test]
fn registry_header_starts_every_file_of_every_key() {
    let mut r = ShardRegistry::new(Some(rec(&["id", "name"])))
        .with_output_splitting(FileSplitting::SplitAfterRows(1));
    for key in ["x", "y", "x"] {
        let (st, bytes) = r.write_record(key.to_string(), &rec(&["1", "n"])).unwrap();
        assert!(st.opened && st.completed);
        assert_eq!(bytes, b"id,name\n1,n\n".to_vec());
    }
}


#[test]
fn every_opened_file_is_completed_exactly_once() {
    let mut r = ShardRegistry::new(None).with_output_splitting(FileSplitting::SplitAfterRows(3));
    let keys = ["p", "q", "p", "p", "r", "p", "q", "p", "p", "q", "q"];
    let mut opened: Vec<(String, usize)> = Vec::new();
    let mut completed: Vec<(String, usize)> = Vec::new();
    for key in keys {
        let (st, _) = r.write_record(key.to_string(), &rec(&["v"])).unwrap();
        if st.opened {
            assert!(!opened.contains(&(key.to_string(), st.file)));
            opened.push((key.to_string(), st.file));
        }
        if st.completed {
            completed.push((key.to_string(), st.file));
        }
    }
    completed.extend(r.finish());
    // p: 6 records -> files 0, 1; q: 4 -> 0, 1; r: 1 -> 0.
    let mut o = opened.clone();
    let mut c = completed.clone();
    o.sort();
    c.sort();
    assert_eq!(o, c);
    assert_eq!(
        o,
        vec![
            ("p".to_string(), 0),
            ("p".to_string(), 1),
            ("q".to_string(), 0),
            ("q".to_string(), 1),
            ("r".to_string(), 0)
        ]
    );
}

#[test]
fn no_split_keeps_each_key_in_one_file_across_keys() {
    let mut r = ShardRegistry::new(None);
    for (i, key) in ["x", "y", "x", "x", "y"].iter().enumerate() {
        let (st, bytes) = r.write_record(key.to_string(), &rec(&[&i.to_string()])).unwrap();
        assert_eq!(st.file, 0);
        assert!(!st.completed);
        assert_eq!(bytes, format!("{}\n", i).into_bytes());
    }
    assert_eq!(r.finish(), vec![("x".to_string(), 0), ("y".to_string(), 0)]);
}
