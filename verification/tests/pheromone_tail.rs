use std::cell::Cell;

use thronglets::identity::NodeIdentity;
use thronglets::pheromone_tail::{
    boot_seed, cursor_from_file, cursor_path, drain_step, field_snapshot_path, restores_from_snapshot, FieldTail,
    PollOutcome, TailRow, CURSOR_VERSION, POLL_BATCH_LIMIT,
};

const LOCAL_SEED: u8 = 1;
const REMOTE_SEED: u8 = 99;

fn pubkey_for(seed: u8) -> [u8; 32] {
    NodeIdentity::from_secret_bytes([seed; 32]).public_key_bytes()
}

/// The rows a store would hand back after `cursor`: strictly later ones, in
/// timestamp order, at most a batch.
fn rows_after(store: &[TailRow], cursor: u64) -> Vec<TailRow> {
    let mut rows: Vec<TailRow> = store
        .iter()
        .filter(|r| r.timestamp > cursor)
        .map(|r| TailRow { node_pubkey: r.node_pubkey, timestamp: r.timestamp })
        .collect();
    rows.sort_by_key(|r| r.timestamp);
    rows.truncate(POLL_BATCH_LIMIT);
    rows
}

fn poll(tail: &mut FieldTail, store: &[TailRow], excited: &mut usize) -> usize {
    let rows = rows_after(store, tail.current_cursor());
    let outcome = tail.poll_once(&rows);
    *excited += outcome.excite.iter().filter(|e| **e).count();
    outcome.processed
}

#[test]
fn tail_picks_up_new_traces_and_advances_cursor() {
    let mut store: Vec<TailRow> = Vec::new();
    let mut excited: usize = 0;
    let mut tail = FieldTail::new(None, pubkey_for(LOCAL_SEED));

    assert_eq!(poll(&mut tail, &store, &mut excited), 0);
    assert_eq!(tail.current_cursor(), 0);

    store.push(TailRow { node_pubkey: pubkey_for(LOCAL_SEED), timestamp: 1_000 });
    assert_eq!(poll(&mut tail, &store, &mut excited), 1);
    assert_eq!(tail.current_cursor(), 1_000);
    assert!(excited > 0, "field should have points after excitation");

    store.push(TailRow { node_pubkey: pubkey_for(LOCAL_SEED), timestamp: 500 });
    assert_eq!(poll(&mut tail, &store, &mut excited), 0, "older trace must be skipped by cursor");

    store.push(TailRow { node_pubkey: pubkey_for(LOCAL_SEED), timestamp: 2_000 });
    assert_eq!(poll(&mut tail, &store, &mut excited), 1);
    assert_eq!(tail.current_cursor(), 2_000);
}

#[test]
fn tail_advances_cursor_for_remote_traces_but_does_not_excite() {
    let store = vec![TailRow { node_pubkey: pubkey_for(REMOTE_SEED), timestamp: 5_000 }];
    let mut tail = FieldTail::new(None, pubkey_for(LOCAL_SEED));
    let baseline: usize = 0;
    let mut excited: usize = 0;
    let processed = poll(&mut tail, &store, &mut excited);
    assert_eq!(processed, 1, "tail should process the row");
    assert_eq!(tail.current_cursor(), 5_000, "cursor must advance even for skipped remote traces");
    assert_eq!(excited, baseline, "remote trace must not produce new field points via tail");
}

#[test]
fn cursor_persists_across_tail_restart() {
    let store = vec![TailRow { node_pubkey: pubkey_for(LOCAL_SEED), timestamp: 1_500 }];
    let persisted: u64;
    {
        let mut tail = FieldTail::new(None, pubkey_for(LOCAL_SEED));
        let outcome = tail.poll_once(&rows_after(&store, tail.current_cursor()));
        assert_eq!(outcome.processed, 1);
        assert_eq!(tail.current_cursor(), 1_500);
        persisted = outcome.persist.unwrap();
    }
    let mut tail2 = FieldTail::new(cursor_from_file(CURSOR_VERSION, persisted), pubkey_for(LOCAL_SEED));
    assert_eq!(tail2.current_cursor(), 1_500, "cursor must persist across tail restart");
    let mut excited: usize = 0;
    assert_eq!(poll(&mut tail2, &store, &mut excited), 0, "no new traces after restart");
}

#[test]
fn seed_cursor_only_advances_forward() {
    let mut tail = FieldTail::new(None, pubkey_for(LOCAL_SEED));
    assert_eq!(tail.seed_cursor(5_000), Some(5_000));
    assert_eq!(tail.current_cursor(), 5_000);
    assert_eq!(tail.seed_cursor(1_000), None);
    assert_eq!(tail.current_cursor(), 5_000);
    assert_eq!(tail.seed_cursor(10_000), Some(10_000));
    assert_eq!(tail.current_cursor(), 10_000);
}

#[test]
fn drain_processes_full_backlog() {
    let store: Vec<TailRow> =
        (0..50).map(|i| TailRow { node_pubkey: pubkey_for(LOCAL_SEED), timestamp: 10_000 + i as u64 }).collect();
    let mut tail = FieldTail::new(None, pubkey_for(LOCAL_SEED));
    let excited = Cell::new(0usize);
    let total = tail.drain(
        |q: i64| rows_after(&store, if q < 0 { 0 } else { q as u64 }),
        |_rows: &[TailRow], o: &PollOutcome| excited.set(excited.get() + o.excite.iter().filter(|e| **e).count()),
    );
    assert_eq!(total, 50);
    assert_eq!(tail.current_cursor(), 10_049);
    assert!(excited.get() > 0, "drained traces must produce field points");
}

#[test]
fn drain_spans_several_batches_and_stops_on_empty_read() {
    let store: Vec<TailRow> =
        (0..2_500u64).map(|i| TailRow { node_pubkey: pubkey_for(REMOTE_SEED), timestamp: 1 + i }).collect();
    let mut tail = FieldTail::new(None, pubkey_for(LOCAL_SEED));
    let reads = Cell::new(0usize);
    let excited = Cell::new(0usize);
    let total = tail.drain(
        |q: i64| {
            reads.set(reads.get() + 1);
            rows_after(&store, if q < 0 { 0 } else { q as u64 })
        },
        |_rows: &[TailRow], o: &PollOutcome| excited.set(excited.get() + o.excite.iter().filter(|e| **e).count()),
    );
    assert_eq!(total, 2_500);
    assert_eq!(reads.get(), 4);
    assert_eq!(excited.get(), 0);
    assert_eq!(tail.current_cursor(), 2_500);
}

#[test]
fn poll_marks_local_rows_and_persists_only_forward_moves() {
    let mut tail = FieldTail::new(Some(100), pubkey_for(LOCAL_SEED));
    let rows = vec![
        TailRow { node_pubkey: pubkey_for(LOCAL_SEED), timestamp: 90 },
        TailRow { node_pubkey: pubkey_for(REMOTE_SEED), timestamp: 300 },
        TailRow { node_pubkey: pubkey_for(LOCAL_SEED), timestamp: 200 },
    ];
    let outcome = tail.poll_once(&rows);
    assert_eq!(outcome.processed, 3);
    assert_eq!(outcome.excite, vec![true, false, true]);
    assert_eq!(outcome.persist, Some(300));
    assert_eq!(tail.current_cursor(), 300);
    let again = tail.poll_once(&rows);
    assert_eq!(again.persist, None);
    assert_eq!(tail.current_cursor(), 300);
    let empty = tail.poll_once(&[]);
    assert_eq!(empty.processed, 0);
    assert_eq!(empty.persist, None);
}

#[test]
fn query_cursor_saturates() {
    let mut tail = FieldTail::new(Some(42), pubkey_for(LOCAL_SEED));
    assert_eq!(tail.query_cursor(), 42);
    tail.seed_cursor(u64::MAX);
    assert_eq!(tail.query_cursor(), i64::MAX);
}

#[test]
fn cursor_files_of_other_versions_are_ignored() {
    assert_eq!(cursor_from_file(1, 42), Some(42));
    assert_eq!(cursor_from_file(2, 42), None);
    assert_eq!(FieldTail::new(cursor_from_file(0, 7), pubkey_for(LOCAL_SEED)).current_cursor(), 0);
}

#[test]
fn boot_decisions() {
    assert_eq!(boot_seed(true, Some(77)), Some(77));
    assert_eq!(boot_seed(true, Some(-5)), Some(0));
    assert_eq!(boot_seed(true, None), None);
    assert_eq!(boot_seed(false, Some(77)), None);
    assert!(restores_from_snapshot(true, true));
    assert!(!restores_from_snapshot(false, true));
    assert!(!restores_from_snapshot(true, false));
    assert_eq!(drain_step(3, 0), Err(3));
    assert_eq!(drain_step(3, 4), Ok(7));
    assert_eq!(drain_step(usize::MAX, 1), Ok(usize::MAX));
}

#[test]
fn state_files_live_in_data_dir() {
    assert_eq!(cursor_path("/d"), "/d/field-tail.cursor.json");
    assert_eq!(field_snapshot_path("/d/"), "/d/pheromone-field.v1.json");
}
