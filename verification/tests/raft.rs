use std::cell::RefCell;

use focal_vector::checksum::crc32c;
use focal_vector::journal::{frame_record, scan_records, Damage, Journal};
use focal_vector::raft_state_machine::model::{
    AppliedPayload, AppliedRecord, SnapshotMeta, StateSnapshot, StoredSnapshot,
};
use focal_vector::raft_state_machine::search::MIN_REINDEXED_POINTS;
use focal_vector::raft_state_machine::snapshot::{
    check_stored_snapshot, decode_state_snapshot, encode_state_snapshot,
};
use focal_vector::raft_storage::{
    gather, Edge, Entry, EntryPayload, JournalRecord, LogId, Membership, Vote,
};
use focal_vector::{
    CollectionConfig, DurableRaftLog, DurableShardStateMachine, Error, Filter, Kernel, Metadata,
    Metric, Result, SearchHit, ShardCommand, ShardResponse, UpsertPoint, Value,
};

struct Floats;

impl Kernel for Floats {
    fn normalize(&self, vector: &Vec<u32>) -> Vec<u32> {
        let values = floats(vector);
        let squared = values
            .iter()
            .map(|value| (*value as f64) * (*value as f64))
            .sum::<f64>();
        let inverse = squared.sqrt().recip() as f32;
        values.iter().map(|value| (value * inverse).to_bits()).collect()
    }

    fn score(&self, metric: Metric, query: &Vec<u32>, candidate: &Vec<u32>) -> u32 {
        let pairs: Vec<(f32, f32)> = floats(query).into_iter().zip(floats(candidate)).collect();
        let score: f32 = match metric {
            Metric::Cosine | Metric::DotProduct => pairs.iter().map(|(a, b)| a * b).sum(),
            Metric::Euclidean => -pairs.iter().map(|(a, b)| (a - b) * (a - b)).sum::<f32>(),
        };
        score.to_bits()
    }
}

fn floats(vector: &[u32]) -> Vec<f32> {
    vector.iter().map(|bits| f32::from_bits(*bits)).collect()
}

fn bits(vector: &[f32]) -> Vec<u32> {
    vector.iter().map(|value| value.to_bits()).collect()
}

fn log_id(index: u64) -> LogId {
    LogId { term: 1, node_id: 1, index }
}

fn append(bytes: &RefCell<Vec<u8>>, frame: &Vec<u8>) -> Result<()> {
    bytes.borrow_mut().extend_from_slice(frame);
    Ok(())
}

fn copy_record(record: &AppliedRecord) -> AppliedRecord {
    AppliedRecord {
        log_id: record.log_id,
        payload: match &record.payload {
            AppliedPayload::Blank => AppliedPayload::Blank,
            AppliedPayload::Command { command, response } => AppliedPayload::Command {
                command: command.clone(),
                response: response.clone(),
            },
            AppliedPayload::Membership(membership) => {
                AppliedPayload::Membership(membership.clone())
            }
        },
    }
}

fn copy_state(state: &StateSnapshot) -> StateSnapshot {
    StateSnapshot {
        config: state.config,
        points: state.points.clone(),
        collection_sequence: state.collection_sequence,
        last_applied: state.last_applied,
        membership: state.membership.clone(),
        dedup: state.dedup.clone(),
    }
}

/// The journal and the snapshot of one shard, kept in memory.
#[derive(Default)]
struct Storage {
    records: RefCell<Vec<AppliedRecord>>,
    snapshot: RefCell<Option<(StoredSnapshot, StateSnapshot)>>,
}

impl Storage {
    fn open(&self) -> Result<DurableShardStateMachine> {
        let snapshot = self.snapshot.borrow().as_ref().map(|(stored, state)| {
            let stored = StoredSnapshot {
                meta: stored.meta.clone(),
                data: stored.data.clone(),
                checksum: stored.checksum,
            };
            (stored, copy_state(state))
        });
        let records = self.records.borrow().iter().map(copy_record).collect();
        DurableShardStateMachine::open(&Floats, config(), snapshot, records)
    }

    fn apply(
        &self,
        shard: &mut DurableShardStateMachine,
        entries: Vec<Entry>,
    ) -> Result<Vec<ShardResponse>> {
        shard.apply(&Floats, &entries, |record: &AppliedRecord| {
            self.records.borrow_mut().push(copy_record(record));
            Ok(())
        })
    }

    fn build_snapshot(
        &self,
        shard: &mut DurableShardStateMachine,
    ) -> Result<(SnapshotMeta, Vec<u8>)> {
        shard.build_snapshot(&Floats, "nonce", |state: &StateSnapshot, meta: &SnapshotMeta| {
            let data = encode_state_snapshot(&format!("{state:?}").into_bytes());
            let checksum = crc32c(&sealed(meta, &data));
            let stored = StoredSnapshot {
                meta: meta.clone(),
                data: data.clone(),
                checksum: Some(checksum),
            };
            *self.snapshot.borrow_mut() = Some((stored, copy_state(state)));
            Ok((data, checksum))
        })
    }
}

/// The bytes that the checksum of a stored snapshot is of.
fn sealed(meta: &SnapshotMeta, data: &[u8]) -> Vec<u8> {
    let mut bytes = format!("{meta:?}").into_bytes();
    bytes.extend_from_slice(data);
    bytes
}

fn config() -> CollectionConfig {
    CollectionConfig { dimension: 2, metric: Metric::DotProduct }
}

fn entry(index: u64, request_id: u64) -> Entry {
    upsert_entry(index, request_id, "p", vec![1.0, 0.0])
}

fn upsert_entry(index: u64, request_id: u64, id: &str, vector: Vec<f32>) -> Entry {
    Entry {
        log_id: log_id(index),
        payload: EntryPayload::Normal(ShardCommand::Upsert {
            client_id: "client".into(),
            request_id,
            points: vec![UpsertPoint {
                id: id.into(),
                vector: bits(&vector),
                metadata: Metadata::new(),
            }],
        }),
    }
}

fn delete_entry(index: u64, request_id: u64, ids: &[&str]) -> Entry {
    Entry {
        log_id: log_id(index),
        payload: EntryPayload::Normal(ShardCommand::Delete {
            client_id: "client".into(),
            request_id,
            ids: ids.iter().map(|id| id.to_string()).collect(),
        }),
    }
}

fn ids(hits: &[SearchHit]) -> Vec<&str> {
    hits.iter().map(|hit| hit.id.as_str()).collect()
}

#[test]
fn journal_recovers_vote_commit_logs_truncation_and_purge() {
    let vote = Vote { term: 3, node_id: 1, committed: false };
    let records = || {
        vec![
            JournalRecord::SaveVote(vote),
            JournalRecord::SaveCommitted(Some(log_id(2))),
            JournalRecord::Append(
                (0..4)
                    .map(|index| Entry { log_id: log_id(index), payload: EntryPayload::Blank })
                    .collect(),
            ),
            JournalRecord::Truncate(log_id(3)),
            JournalRecord::Purge(log_id(0)),
        ]
    };
    let journal = RefCell::new(Vec::new());
    let mut store = DurableRaftLog::open(vec![]);
    for record in records() {
        let payload = format!("{record:?}").into_bytes();
        store
            .write_record(record, &payload, |frame: &Vec<u8>| append(&journal, frame))
            .unwrap();
    }
    drop(store);

    let scan = scan_records(Journal::Log, &journal.borrow());
    assert_eq!(scan.valid_length, journal.borrow().len());
    let decoded = scan
        .payloads
        .iter()
        .map(|payload| {
            Ok(records()
                .into_iter()
                .find(|record| format!("{record:?}").as_bytes() == payload.as_slice())
                .unwrap())
        })
        .collect();
    let reopened = DurableRaftLog::open(gather(Journal::Log, decoded, scan.damage).unwrap());
    assert_eq!(reopened.read_vote(), Some(vote));
    assert_eq!(reopened.read_committed(), Some(log_id(2)));
    let state = reopened.get_log_state();
    assert_eq!(state.last_purged_log_id, Some(log_id(0)));
    assert_eq!(state.last_log_id, Some(log_id(2)));
    let entries = reopened.try_get_log_entries(Edge::Included(0), Edge::Excluded(10));
    assert_eq!(entries.iter().map(|entry| entry.log_id.index).collect::<Vec<_>>(), [1, 2]);
}

#[test]
fn torn_final_record_is_discarded_but_checksum_corruption_fails_closed() {
    let payload = b"a vote".to_vec();
    let frame = frame_record(Journal::Log, &payload).unwrap();
    let mut bytes = frame.clone();
    bytes.extend_from_slice(&frame[..4]);
    let scan = scan_records(Journal::Log, &bytes);
    assert_eq!(scan.payloads, [payload]);
    assert_eq!(scan.valid_length, frame.len());
    assert!(scan.damage.is_none());

    bytes.truncate(scan.valid_length);
    bytes[10] ^= 0x40;
    let scan = scan_records(Journal::Log, &bytes);
    assert!(scan.damage.is_some());
    let decoded: Vec<Result<u8>> = vec![];
    assert_eq!(
        gather(Journal::Log, decoded, scan.damage),
        Err(Error::Io("Raft journal checksum mismatch".into()))
    );
}

#[test]
fn every_cut_of_a_journal_keeps_whole_records() {
    let payloads = [b"one".to_vec(), vec![], b"three".to_vec()];
    let mut bytes = Vec::new();
    let mut ends = vec![0];
    for payload in &payloads {
        bytes.extend_from_slice(&frame_record(Journal::State, payload).unwrap());
        ends.push(bytes.len());
    }
    for cut in 0..=bytes.len() {
        let scan = scan_records(Journal::State, &bytes[..cut]);
        let whole = ends.iter().filter(|end| **end <= cut).count() - 1;
        assert_eq!(scan.payloads, payloads[..whole]);
        assert_eq!(scan.valid_length, ends[whole]);
        assert!(scan.damage.is_none());
    }
    let mut changed = bytes.clone();
    changed[0] ^= 1;
    assert_eq!(scan_records(Journal::State, &changed).damage, Some(Damage::Header));
    let last = changed.len() - 1;
    let mut changed = bytes.clone();
    changed[last] ^= 1;
    assert_eq!(scan_records(Journal::State, &changed).damage, Some(Damage::Checksum));
    // A record of one journal is none of the other.
    assert_eq!(scan_records(Journal::Log, &bytes).damage, Some(Damage::Header));
}

#[test]
fn refused_journal_records_change_nothing() {
    let mut store = DurableRaftLog::open(vec![]);
    let vote = Vote { term: 1, node_id: 2, committed: true };
    let refused = store.write_record(
        JournalRecord::SaveVote(vote),
        &vec![1, 2, 3],
        |_: &Vec<u8>| Err(Error::Io("disk full".into())),
    );
    assert_eq!(refused, Err(Error::Io("disk full".into())));
    assert_eq!(store.read_vote(), None);
    assert_eq!(store.get_log_state().last_log_id, None);
}

#[test]
fn appended_entries_are_found_by_range() {
    let store = DurableRaftLog::open(vec![JournalRecord::Append(
        (3..8)
            .map(|index| Entry { log_id: log_id(index), payload: EntryPayload::Blank })
            .collect(),
    )]);
    let indexes = |low, high| -> Vec<u64> {
        store.try_get_log_entries(low, high).iter().map(|entry| entry.log_id.index).collect()
    };
    assert_eq!(indexes(Edge::Unbounded, Edge::Unbounded), [3, 4, 5, 6, 7]);
    assert_eq!(indexes(Edge::Excluded(4), Edge::Included(6)), [5, 6]);
    assert!(indexes(Edge::Included(9), Edge::Unbounded).is_empty());
}

#[test]
fn applies_deduplicates_and_recovers() {
    let storage = Storage::default();
    let mut state = storage.open().unwrap();
    let responses = storage.apply(&mut state, vec![entry(1, 7), entry(2, 7)]).unwrap();
    assert_eq!(
        responses,
        [ShardResponse::Applied { sequence: 1 }, ShardResponse::Applied { sequence: 1 }]
    );
    assert_eq!(state.len(), 1);
    drop(state);
    let mut reopened = storage.open().unwrap();
    assert_eq!(reopened.len(), 1);
    assert_eq!(reopened.applied_state().0.unwrap().index, 2);
    assert_eq!(reopened.search(&Floats, bits(&[1.0, 0.0]), 1, None).unwrap()[0].id, "p");
}

#[test]
fn snapshot_round_trip_replaces_state() {
    let source = Storage::default();
    let target = Storage::default();
    let mut state = source.open().unwrap();
    source.apply(&mut state, vec![entry(1, 1)]).unwrap();
    let (meta, data) = source.build_snapshot(&mut state).unwrap();
    let mut restored = target.open().unwrap();
    let stored = StoredSnapshot { meta, data, checksum: None };
    let snapshot = copy_state(&source.snapshot.borrow().as_ref().unwrap().1);
    let kept = RefCell::new(0);
    restored
        .install_snapshot(
            &Floats,
            stored,
            snapshot,
            |_: &StoredSnapshot| {
                *kept.borrow_mut() += 1;
                Ok(())
            },
            || {
                target.records.borrow_mut().clear();
                Ok(())
            },
        )
        .unwrap();
    assert_eq!(restored.len(), 1);
    assert_eq!(*kept.borrow(), 1);
    assert_eq!(restored.applied_index(), Some(1));
    assert!(restored.get_current_snapshot().is_some());
}

#[test]
fn snapshot_index_merges_updates_inserts_and_deletes_exactly() {
    let storage = Storage::default();
    let mut state = storage.open().unwrap();
    storage
        .apply(
            &mut state,
            vec![
                upsert_entry(1, 1, "p", vec![1.0, 0.0]),
                upsert_entry(2, 2, "q", vec![0.0, 1.0]),
            ],
        )
        .unwrap();
    storage.build_snapshot(&mut state).unwrap();
    assert!(state.has_approximate_index());
    assert_eq!(state.pending_point_count(), 0);

    storage
        .apply(
            &mut state,
            vec![
                upsert_entry(3, 3, "p", vec![-1.0, 0.0]),
                upsert_entry(4, 4, "r", vec![2.0, 0.0]),
                delete_entry(5, 5, &["q"]),
            ],
        )
        .unwrap();
    assert_eq!(state.pending_point_count(), 3);
    let hits = state.search(&Floats, bits(&[1.0, 0.0]), 3, None).unwrap();
    assert_eq!(ids(&hits), ["r", "p"]);

    drop(state);
    let mut reopened = storage.open().unwrap();
    assert!(reopened.has_approximate_index());
    assert_eq!(reopened.pending_point_count(), 3);
    let hits = reopened.search(&Floats, bits(&[1.0, 0.0]), 3, None).unwrap();
    assert_eq!(ids(&hits), ["r", "p"]);
}

#[test]
fn snapshot_index_matches_exact_search_on_deterministic_corpus() {
    let storage = Storage::default();
    let mut state = storage.open().unwrap();
    let entries = (0..200)
        .map(|index| {
            let angle = (index as f32) * 0.031_415_93;
            upsert_entry(
                index + 1,
                index + 1,
                &format!("p-{index:03}"),
                vec![angle.cos(), angle.sin()],
            )
        })
        .collect();
    storage.apply(&mut state, entries).unwrap();

    let exact = state.collection().search(&Floats, bits(&[0.31, 0.95]), 10, None).unwrap();
    storage.build_snapshot(&mut state).unwrap();
    let approximate =
        state.search_with_ef(&Floats, bits(&[0.31, 0.95]), 10, None, 128).unwrap();
    assert_eq!(ids(&approximate), ids(&exact));
}

#[test]
fn bulk_load_builds_index_lazily_on_first_search() {
    let storage = Storage::default();
    let mut state = storage.open().unwrap();
    let points = (0..MIN_REINDEXED_POINTS)
        .map(|index| UpsertPoint {
            id: format!("bulk-{index:03}"),
            vector: bits(&[index as f32, 1.0]),
            metadata: Metadata::new(),
        })
        .collect();
    storage
        .apply(
            &mut state,
            vec![Entry {
                log_id: log_id(1),
                payload: EntryPayload::Normal(ShardCommand::Upsert {
                    client_id: "bulk-client".into(),
                    request_id: 1,
                    points,
                }),
            }],
        )
        .unwrap();
    assert!(!state.has_approximate_index());
    assert_eq!(state.pending_point_count(), MIN_REINDEXED_POINTS);
    assert_eq!(state.search(&Floats, bits(&[1.0, 0.0]), 1, None).unwrap()[0].id, "bulk-255");
    assert!(state.has_approximate_index());
    assert_eq!(state.pending_point_count(), 0);
}

#[test]
fn snapshot_checksum_rejects_corruption_and_truncation() {
    let storage = Storage::default();
    let mut state = storage.open().unwrap();
    storage.apply(&mut state, vec![entry(1, 1)]).unwrap();
    storage.build_snapshot(&mut state).unwrap();
    drop(state);

    let mut snapshot = storage.snapshot.borrow_mut();
    let stored = &mut snapshot.as_mut().unwrap().0;
    assert!(check_stored_snapshot(stored, &sealed(&stored.meta, &stored.data)).is_ok());
    assert!(decode_state_snapshot(&stored.data).is_ok());
    stored.data[20] ^= 0x40;
    assert!(matches!(
        check_stored_snapshot(stored, &sealed(&stored.meta, &stored.data)),
        Err(Error::CorruptStorage(message)) if message.contains("checksum")
    ));
    assert!(matches!(
        decode_state_snapshot(&stored.data),
        Err(Error::CorruptStorage(message)) if message.contains("checksum")
    ));
    stored.data[20] ^= 0x40;
    let half = stored.data.len() / 2;
    assert!(matches!(
        decode_state_snapshot(&stored.data[..half]),
        Err(Error::CorruptStorage(_))
    ));
}

#[test]
fn broad_filtered_queries_use_index_and_preserve_filter_correctness() {
    let storage = Storage::default();
    let mut state = storage.open().unwrap();
    let points = (0..1_024)
        .map(|index| {
            let mut metadata = Metadata::new();
            let group = if index % 2 == 0 { "even" } else { "odd" };
            metadata.insert("group".into(), Value::Keyword(group.into()));
            UpsertPoint {
                id: format!("filtered-{index:03}"),
                vector: bits(&[index as f32, 1.0]),
                metadata,
            }
        })
        .collect();
    storage
        .apply(
            &mut state,
            vec![Entry {
                log_id: log_id(1),
                payload: EntryPayload::Normal(ShardCommand::Upsert {
                    client_id: "filter-client".into(),
                    request_id: 1,
                    points,
                }),
            }],
        )
        .unwrap();
    let filter = Filter::Eq { field: "group".into(), value: Value::Keyword("even".into()) };
    let hits =
        state.search_with_ef(&Floats, bits(&[1.0, 0.0]), 10, Some(&filter), 128).unwrap();
    assert_eq!(hits.len(), 10);
    assert!(
        hits.iter()
            .all(|hit| hit.metadata.get("group") == Some(&Value::Keyword("even".into())))
    );
    assert_eq!(hits[0].id, "filtered-1022");
}

#[test]
fn rejected_commands_are_settled_too() {
    let storage = Storage::default();
    let mut state = storage.open().unwrap();
    let wrong = || upsert_entry(1, 1, "p", vec![1.0]);
    let first = storage.apply(&mut state, vec![wrong()]).unwrap();
    assert!(matches!(&first[0], ShardResponse::Rejected { message }
        if message == "invalid vector dimension: expected 2, got 1"));
    assert_eq!(state.len(), 0);
    // The same request is answered as before, whatever it now asks for.
    let again = storage.apply(&mut state, vec![upsert_entry(2, 1, "p", vec![1.0, 0.0])]).unwrap();
    assert_eq!(again, first);
    assert_eq!(state.len(), 0);
    let reopened = storage.open().unwrap();
    assert_eq!(reopened.applied_index(), Some(2));
    assert_eq!(reopened.len(), 0);
}

#[test]
fn snapshots_carry_settled_requests_and_membership() {
    let storage = Storage::default();
    let mut state = storage.open().unwrap();
    let membership =
        Membership { configs: vec![vec![1, 2, 3]], nodes: vec![(1, "127.0.0.1:1".into())] };
    storage
        .apply(
            &mut state,
            vec![
                Entry {
                    log_id: log_id(1),
                    payload: EntryPayload::Membership(membership.clone()),
                },
                Entry { log_id: log_id(2), payload: EntryPayload::Blank },
                entry(3, 9),
            ],
        )
        .unwrap();
    let (meta, _) = storage.build_snapshot(&mut state).unwrap();
    assert_eq!(meta.last_log_id, Some(log_id(3)));
    assert_eq!(meta.last_membership.log_id, Some(log_id(1)));
    assert_eq!(meta.last_membership.membership, membership);
    storage.records.borrow_mut().clear();
    let mut reopened = storage.open().unwrap();
    let responses = storage.apply(&mut reopened, vec![entry(4, 9)]).unwrap();
    assert_eq!(responses, [ShardResponse::Applied { sequence: 1 }]);
    assert_eq!(reopened.collection().latest_sequence(), 1);
}

#[test]
fn journal_failures_leave_the_shard_as_it_was() {
    let mut state =
        DurableShardStateMachine::open(&Floats, config(), None, vec![]).unwrap();
    let refused = state.apply(&Floats, &vec![entry(1, 1)], |_: &AppliedRecord| {
        Err(Error::Io("disk full".into()))
    });
    assert_eq!(refused, Err(Error::Io("disk full".into())));
    assert_eq!(state.len(), 0);
    assert_eq!(state.applied_index(), None);
}

#[test]
fn filtered_searches_are_never_short() {
    let storage = Storage::default();
    let mut state = storage.open().unwrap();
    let points = (0..1_024)
        .map(|index| {
            let mut metadata = Metadata::new();
            metadata.insert("even".into(), Value::Boolean(index % 2 == 0));
            UpsertPoint {
                id: format!("point-{index:04}"),
                vector: bits(&[index as f32, 1.0]),
                metadata,
            }
        })
        .collect();
    let command =
        ShardCommand::Upsert { client_id: "client".into(), request_id: 1, points };
    let load = Entry { log_id: log_id(1), payload: EntryPayload::Normal(command) };
    storage.apply(&mut state, vec![load]).unwrap();
    let filter = Filter::Eq { field: "even".into(), value: Value::Boolean(true) };
    for (k, expected) in [(1, 1), (31, 31), (512, 512), (600, 512)] {
        let hits = state
            .search_with_ef(&Floats, bits(&[-1.0, 0.0]), k, Some(&filter), k)
            .unwrap();
        assert_eq!(hits.len(), expected);
        assert_eq!(hits[0].id, "point-0000");
    }
}

#[test]
fn a_changed_byte_in_any_record_is_noticed() {
    let records = [b"first".to_vec(), b"second".to_vec(), b"third".to_vec()];
    let frames: Vec<Vec<u8>> =
        records.iter().map(|record| frame_record(Journal::Log, record).unwrap()).collect();
    let whole: Vec<u8> = frames.concat();
    let front = frames[0].len();
    for position in front + 9..front + frames[1].len() {
        let mut changed = whole.clone();
        changed[position] ^= 1;
        let scan = scan_records(Journal::Log, &changed);
        assert_eq!(scan.damage, Some(Damage::Checksum));
        assert_eq!(scan.valid_length, front);
        assert_eq!(scan.payloads, [b"first".to_vec()]);
    }
}

#[test]
fn reopened_shards_filter_what_they_hold() {
    let storage = Storage::default();
    let mut state = storage.open().unwrap();
    let points = (0..80)
        .map(|index| {
            let mut metadata = Metadata::new();
            metadata.insert("even".into(), Value::Boolean(index % 2 == 0));
            UpsertPoint {
                id: format!("point-{index:02}"),
                vector: bits(&[index as f32, 1.0]),
                metadata,
            }
        })
        .collect();
    let command =
        ShardCommand::Upsert { client_id: "client".into(), request_id: 1, points };
    let load = Entry { log_id: log_id(1), payload: EntryPayload::Normal(command) };
    storage.apply(&mut state, vec![load]).unwrap();
    storage.build_snapshot(&mut state).unwrap();
    storage
        .apply(
            &mut state,
            vec![
                delete_entry(2, 2, &["point-02", "point-03"]),
                upsert_entry(3, 3, "point-04", vec![9.0, 9.0]),
            ],
        )
        .unwrap();
    let mut reopened = storage.open().unwrap();
    let filter = Filter::Eq { field: "even".into(), value: Value::Boolean(true) };
    for shard in [&mut state, &mut reopened] {
        let hits = shard
            .search_with_ef(&Floats, bits(&[1.0, 0.0]), 60, Some(&filter), 60)
            .unwrap();
        let mut found = ids(&hits);
        found.sort();
        let expected: Vec<String> = (0..80)
            .filter(|index| index % 2 == 0 && ![2, 4].contains(index))
            .map(|index| format!("point-{index:02}"))
            .collect();
        assert_eq!(found, expected);
    }
}

#[test]
fn an_entry_is_journaled_once() {
    let storage = Storage::default();
    let mut state = storage.open().unwrap();
    let handed = RefCell::new(Vec::new());
    let response = state.apply_entry(
        &Floats,
        &upsert_entry(1, 1, "p", vec![1.0, 0.0]),
        |record: &AppliedRecord| {
            handed.borrow_mut().push(copy_record(record));
            Ok(())
        },
    );
    assert_eq!(response, Ok(ShardResponse::Applied { sequence: 1 }));
    assert_eq!(handed.borrow().len(), 1);
    assert_eq!(handed.borrow()[0].log_id, log_id(1));
    assert_eq!(state.applied_index(), Some(1));
    let refused = state.apply_entry(
        &Floats,
        &upsert_entry(2, 2, "q", vec![0.0, 1.0]),
        |_: &AppliedRecord| Err(Error::Io("full".into())),
    );
    assert_eq!(refused, Err(Error::Io("full".into())));
    assert_eq!(state.applied_index(), Some(1));
    assert_eq!(state.len(), 1);
}
