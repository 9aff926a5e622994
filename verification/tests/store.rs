use flash::figures::order;
use flash::figures::percentile;
use flash::identity::ActionKey;
use flash::identity::Attribution;
use flash::identity::Digest;
use flash::identity::NodeKey;
use flash::identity::Verdict;
use flash::maps::NameMap;
use flash::store::cas::ContentStore;
use flash::store::history::History;
use flash::store::history::RING;
use flash::store::journal::journal_lines;
use flash::store::journal::Frontier;
use flash::store::journal::Journal;
use flash::store::journal::JournalEntry;
use flash::store::memo::MemoStore;
use flash::store::memo::Produced;
use flash::store::place;
use flash::store::shard_path;
use flash::store::worktree::plan;
use flash::store::worktree::MaterializeStats;
use flash::store::worktree::TreeSpec;
use flash::store::Store;
use flash::store::StoreError;

// ---- history -------------------------------------------------------------------------------

#[test]
fn unknown_until_there_is_history() {
    let mut h = History::new();
    assert!(h.stats(&NodeKey::new("fresh"), &vec![]).is_none());
}

#[test]
fn percentiles_track_the_samples() {
    let mut h = History::new();
    let k = NodeKey::new("n");
    for ms in [10u64, 20, 30, 40, 100] {
        h.record(&k, ms, &vec![]);
    }
    let s = h.stats(&k, &vec![]).unwrap();
    assert_eq!(s.samples, 5);
    assert_eq!(s.p50_ms, 30);
    assert_eq!(s.p90_ms, 100);
}

#[test]
fn ring_keeps_only_the_last_twenty() {
    let mut h = History::new();
    let k = NodeKey::new("n");
    let mut kept = Vec::new();
    for i in 0..50u64 {
        kept = h.record(&k, i, &vec![]);
    }
    let s = h.stats(&k, &vec![]).unwrap();
    assert_eq!(s.samples, RING);
    // Samples 30..=49 survive, so the median is 39 or 40, never something from the first half.
    assert!(s.p50_ms >= 39, "stale samples leaked into the ring: {s:?}");
    assert_eq!(kept, (30..50).collect::<Vec<u64>>());
}

#[test]
fn history_survives_reopening_the_store() {
    let k = NodeKey::new("n");
    let on_disk = History::new().record(&k, 77, &vec![]);
    let mut h2 = History::new();
    assert!(!h2.knows(&k));
    assert_eq!(h2.stats(&k, &on_disk).unwrap().p50_ms, 77);
    assert!(h2.knows(&k));
}

#[test]
fn a_percentile_is_a_sample_at_the_nearest_rank() {
    let sorted = order(&vec![5, 1, 4, 2, 3]);
    assert_eq!(sorted, vec![1, 2, 3, 4, 5]);
    assert_eq!(percentile(&sorted, 0), 1);
    assert_eq!(percentile(&sorted, 50), 3);
    assert_eq!(percentile(&sorted, 90), 5);
    assert_eq!(percentile(&vec![], 50), 0);
}

// ---- the journal ---------------------------------------------------------------------------

fn entry(k: &str) -> JournalEntry {
    JournalEntry {
        node_key: NodeKey::new(k),
        action: ActionKey(Digest::of(k.as_bytes())),
        outputs: vec![Digest::of(b"o")],
        hit: false,
        duration_ms: 5,
        attribution: Attribution::default(),
        at_unix_ms: 0,
    }
}

#[test]
fn replay_returns_completed_nodes_in_order() {
    let got = Journal::replay(vec![Some(entry("a")), Some(entry("b"))]);
    assert_eq!(got.len(), 2);
    assert_eq!(got[0].node_key.as_str(), "a");
    assert_eq!(got[1].node_key.as_str(), "b");
}

#[test]
fn a_torn_trailing_line_does_not_fail_the_replay() {
    let lines = journal_lines("{\"node_key\":\"a\"}\n\n{\"node_key\":\"trunc");
    assert_eq!(lines.len(), 2, "a line that says nothing is passed over");
    assert_eq!(Journal::replay(vec![Some(entry("a")), None]).len(), 1);
    assert_eq!(
        Journal::replay(vec![None, Some(entry("a"))]).len(),
        0,
        "nothing behind a torn line is believed"
    );
}

#[test]
fn unknown_task_replays_empty() {
    assert!(journal_lines("").is_empty());
    assert!(Journal::replay(Vec::new()).is_empty());
}

#[test]
fn a_journal_is_a_file_whatever_the_task_is_called() {
    assert_eq!(Journal::open("task-1").file, "task-1.jsonl");
    assert_eq!(Journal::open("../a b").file, "___a_b.jsonl");
}

// ---- the memo ------------------------------------------------------------------------------

#[test]
fn passing_results_round_trip() {
    let ms = MemoStore::new();
    let action = ActionKey(Digest::of(b"a"));
    let out = vec![Digest::of(b"out")];
    let key = NodeKey::new("n");
    let wrote = ms.put(
        action,
        &Produced {
            node_key: &key,
            verdict: Verdict::Pass,
            outputs: &out,
            attribution: Attribution::default(),
            duration_ms: 42,
            expansion: None,
        },
        7,
    );
    let got = wrote.expect("a passing node is written to the memo");
    assert_eq!(got.action, action);
    assert_eq!(got.outputs, out);
    assert_eq!(got.duration_ms, 42);
    assert_eq!(got.recorded_at_unix_ms, 7);
}

#[test]
fn failures_are_never_memoized() {
    let mut ms = MemoStore::new();
    let key = NodeKey::new("n");
    let wrote = ms.put(
        ActionKey(Digest::of(b"b")),
        &Produced {
            node_key: &key,
            verdict: Verdict::Fail,
            outputs: &Vec::new(),
            attribution: Attribution::default(),
            duration_ms: 7,
            expansion: None,
        },
        7,
    );
    assert!(
        wrote.is_none(),
        "a failing node must not be written to the memo"
    );
    ms.get(wrote.is_some());
    assert_eq!(ms.counters(), (0, 1));
}

// ---- places and trees ----------------------------------------------------------------------

#[test]
fn content_is_sharded_by_its_first_two_digits() {
    let hex = Digest::of(b"hello world").hex();
    let (dir, file) = shard_path(&hex, ".json");
    assert_eq!(dir, &hex[..2]);
    assert_eq!(file, format!("{}.json", &hex[2..]));
}

fn spec_of(files: &[(&str, &str)]) -> TreeSpec {
    let mut spec = TreeSpec::default();
    for (path, body) in files {
        spec.add(path, Digest::of(body.as_bytes()));
    }
    spec
}

fn disk(files: &[(&str, &str)]) -> NameMap<Option<Digest>> {
    let mut m = NameMap::empty();
    for (path, body) in files {
        m.insert(path.to_string(), Some(Digest::of(body.as_bytes())));
    }
    m
}

#[test]
fn a_tree_is_written_where_nothing_is() {
    let spec = spec_of(&[("src/lib.rs", "fn a() {}\n"), ("README.md", "hi\n")]);
    let p = plan(&spec, &disk(&[]));
    assert_eq!(p.write.len(), 2);
    assert_eq!(p.write[0].0, "README.md");
    assert_eq!(p.write[1].1, Digest::of(b"fn a() {}\n"));
    assert_eq!(p.unchanged, 0);
    assert!(p.remove.is_empty());
}

#[test]
fn only_what_differs_between_revisions_is_touched() {
    let new = spec_of(&[("a.rs", "fn a() {}\n"), ("b.rs", "fn b() { 1 }\n")]);
    let have = disk(&[("a.rs", "fn a() {}\n"), ("b.rs", "fn b() {}\n")]);
    let p = plan(&new, &have);
    assert_eq!(p.unchanged, 1, "a.rs did not move and should be left alone");
    assert_eq!(p.write.len(), 1, "only b.rs is rewritten");
    assert_eq!(p.write[0].0, "b.rs");
}

#[test]
fn a_file_that_left_the_tree_is_removed() {
    let after = spec_of(&[("keep.rs", "1\n")]);
    let have = disk(&[("keep.rs", "1\n"), ("gone.rs", "2\n")]);
    let p = plan(&after, &have);
    assert_eq!(p.remove, vec!["gone.rs"]);
    assert_eq!(p.unchanged, 1);
}

#[test]
fn the_later_of_two_entries_for_one_path_counts() {
    let spec = spec_of(&[("a", "1"), ("a", "2")]);
    let p = plan(&spec, &disk(&[]));
    assert_eq!(p.write.len(), 1);
    assert_eq!(p.write[0].1, Digest::of(b"2"));
    assert_eq!(spec.len(), 2);
    assert!(!spec.is_empty());
}

#[test]
fn a_file_that_cannot_be_read_is_written_again() {
    let mut have = disk(&[]);
    have.insert("a".to_string(), None);
    assert_eq!(plan(&spec_of(&[("a", "1")]), &have).write.len(), 1);
}

#[test]
fn an_arranged_tree_is_in_path_order() {
    let mut spec = spec_of(&[("b", "1"), ("a", "2"), ("a", "1")]);
    spec.arrange();
    let paths: Vec<&str> = spec.files.iter().map(|(p, _)| p.as_str()).collect();
    assert_eq!(paths, vec!["a", "a", "b"]);
    assert!(spec.files[0].1 < spec.files[1].1);
}

#[test]
fn a_shared_tree_writes_no_bytes() {
    let shared = MaterializeStats {
        files: 2,
        logical_bytes: 20,
        linked: 2,
        ..Default::default()
    };
    assert_eq!(shared.bytes_written(), 0, "a shared tree should write no bytes");
    let copied = MaterializeStats {
        files: 4,
        logical_bytes: 42,
        copied: 2,
        ..Default::default()
    };
    assert_eq!(copied.bytes_written(), 20);
    assert_eq!(MaterializeStats::default().bytes_written(), 0);
}

#[test]
fn a_blob_is_kept_under_its_digest() {
    let store = Store::open("/s");
    assert_eq!(store.root(), "/s");
    assert_eq!(store.memo, "/s/memo");
    let blob = store.content.put(b"hello world");
    assert_eq!(blob.digest, Digest::of(b"hello world"));
    let hex = blob.digest.hex();
    assert_eq!(blob.path, format!("/s/blobs/{}/{}", &hex[..2], &hex[2..]));
    assert_eq!(store.content.path_of(&blob.digest), blob.path);
    assert_eq!(
        place("r/", &hex, ".json"),
        format!("r/{}/{}.json", &hex[..2], &hex[2..])
    );
}

#[test]
fn missing_content_is_an_error_not_a_panic() {
    let d = Digest::of(b"never stored");
    let err = Store::open("s").content.missing(&d);
    assert!(matches!(err, StoreError::Missing(_)));
    assert_eq!(
        err.message(),
        format!("content {} is not in the store", d.short())
    );
    let io = StoreError::Io {
        path: "p".to_string(),
        why: "full".to_string(),
    };
    assert_eq!(io.message(), "io error at p: full");
    let corrupt = StoreError::Corrupt {
        path: "p".to_string(),
        why: "eof".to_string(),
    };
    assert_eq!(corrupt.message(), "corrupt record at p: eof");
}

#[test]
fn put_is_idempotent_and_get_roundtrips() {
    let cs = ContentStore::open("blobs");
    let mut disk: std::collections::BTreeMap<String, Vec<u8>> = std::collections::BTreeMap::new();
    let a = cs.put(b"hello world");
    disk.insert(a.path.clone(), b"hello world".to_vec());
    let b = cs.put(b"hello world");
    assert_eq!(a.digest, b.digest);
    assert_eq!(a.path, b.path);
    assert_eq!(disk[&cs.path_of(&a.digest)], b"hello world");
    assert!(disk.contains_key(&cs.path_of(&b.digest)));
}

#[test]
fn a_crash_resumes_at_the_frontier() {
    let entry = |key: &str, action: &[u8], out: &[u8]| JournalEntry {
        node_key: NodeKey::new(key),
        action: ActionKey(Digest::of(action)),
        outputs: vec![Digest::of(out)],
        hit: false,
        duration_ms: 1,
        attribution: Attribution::default(),
        at_unix_ms: 0,
    };
    let f = Frontier::of(vec![
        entry("a", b"1", b"old"),
        entry("b", b"2", b"b"),
        entry("a", b"3", b"new"),
    ]);
    let a = NodeKey::new("a");
    assert!(f.done(&a, &ActionKey(Digest::of(b"1"))).is_none(), "it was completed again since");
    let e = f.done(&a, &ActionKey(Digest::of(b"3"))).expect("the last one counts");
    assert_eq!(e.outputs, vec![Digest::of(b"new")]);
    assert!(f.done(&NodeKey::new("c"), &ActionKey(Digest::of(b"3"))).is_none());
}

#[test]
fn a_time_that_was_not_written_is_not_remembered() {
    let mut h = History::new();
    let k = NodeKey::new("n");
    h.record(&k, 10, &vec![]);
    assert_eq!(h.extended(&k, 30, &vec![]), vec![10, 30]);
    assert_eq!(h.stats(&k, &vec![]).unwrap().samples, 1);
    assert_eq!(h.extended(&NodeKey::new("m"), 5, &vec![1, 2]), vec![1, 2, 5]);
}
