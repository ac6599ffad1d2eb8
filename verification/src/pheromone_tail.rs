//! Field tail: the decisions of the daemon-side loop that materializes the
//! pheromone field from the trace store.
//!
//! The trace store is the single source of truth for trace events; the
//! field is a view derived from it. The tail reads the traces stored after
//! its cursor, excites the field with the local ones (remote traces were
//! already excited when they arrived from the network) and moves the cursor
//! past everything it read, so that each trace is handled exactly once.
//! Reading the store, exciting the field and writing the cursor file happen
//! outside; this module decides what each of them is handed.

use vstd::prelude::*;

use crate::text::{join_path, path_joined};

verus! {

/// Name of the cursor file in the data directory.
pub const CURSOR_FILE: &'static str = "field-tail.cursor.json";

/// Name of the field snapshot file in the data directory.
pub const FIELD_SNAPSHOT_FILE: &'static str = "pheromone-field.v1.json";

/// The cursor file format this version writes and reads.
pub const CURSOR_VERSION: u32 = 1;

/// Most traces read from the store in one poll.
pub const POLL_BATCH_LIMIT: usize = 1000;

/// Seconds between two polls of the running tail.
pub const DEFAULT_POLL_INTERVAL_SECS: u64 = 2;

/// What the tail reads of a stored trace: who signed it and when.
pub struct TailRow {
    pub node_pubkey: [u8; 32],
    pub timestamp: u64,
}

/// The path of the cursor file in the data directory `data_dir`.
pub fn cursor_path(data_dir: &str) -> (p: String)
    ensures
        p@ == path_joined(data_dir@, CURSOR_FILE@),
{
    join_path(data_dir, CURSOR_FILE)
}

/// The path of the field snapshot in the data directory `data_dir`.
pub fn field_snapshot_path(data_dir: &str) -> (p: String)
    ensures
        p@ == path_joined(data_dir@, FIELD_SNAPSHOT_FILE@),
{
    join_path(data_dir, FIELD_SNAPSHOT_FILE)
}

/// What one poll asks of the outside: which rows to excite the field with,
/// and the cursor to write to disk, if it moved.
pub struct PollOutcome {
    /// The number of rows read.
    pub processed: usize,
    /// For each row read, whether it is local and excites the field.
    pub excite: Vec<bool>,
    /// The new cursor to persist, where it moved forward.
    pub persist: Option<u64>,
}

/// The tail's state: the timestamp of the last trace whose excitation has
/// been applied, and the local node's public key.
pub struct FieldTail {
    cursor: u64,
    local_node_pubkey: [u8; 32],
}

/// The latest of `cursor` and the timestamps of `rows`.
pub open spec fn advanced(cursor: u64, rows: Seq<TailRow>) -> u64
    decreases rows.len(),
{
    if rows.len() == 0 {
        cursor
    } else {
        let rest = advanced(cursor, rows.drop_last());
        if rows.last().timestamp > rest {
            rows.last().timestamp
        } else {
            rest
        }
    }
}

/// `advanced` never goes below the cursor nor below any row's timestamp.
pub proof fn lemma_advanced_bounds(cursor: u64, rows: Seq<TailRow>)
    ensures
        advanced(cursor, rows) >= cursor,
        forall|i: int| 0 <= i < rows.len() ==> advanced(cursor, rows) >= #[trigger] rows[i].timestamp,
        advanced(cursor, rows) == cursor || exists|i: int|
            0 <= i < rows.len() && advanced(cursor, rows) == #[trigger] rows[i].timestamp,
    decreases rows.len(),
{
    if rows.len() > 0 {
        let pre = rows.drop_last();
        lemma_advanced_bounds(cursor, pre);
        assert forall|i: int| 0 <= i < rows.len() implies advanced(cursor, rows) >= #[trigger] rows[i].timestamp by {
            if i < pre.len() {
                assert(rows[i] == pre[i]);
            }
        }
        if advanced(cursor, rows) != cursor {
            if advanced(cursor, rows) == rows.last().timestamp {
                assert(rows[rows.len() - 1] == rows.last());
            } else {
                let i = choose|i: int| 0 <= i < pre.len() && advanced(cursor, pre) == #[trigger] pre[i].timestamp;
                assert(rows[i] == pre[i]);
            }
        }
    }
}

/// Once a cursor covers every row, polling the same rows again leaves it
/// where it is: each trace moves the cursor at most once.
pub proof fn lemma_repoll_keeps_cursor(cursor: u64, rows: Seq<TailRow>)
    ensures
        advanced(advanced(cursor, rows), rows) == advanced(cursor, rows),
{
    lemma_advanced_bounds(cursor, rows);
    lemma_advanced_covered(advanced(cursor, rows), rows);
}

/// A cursor at or past every row's timestamp does not move.
pub proof fn lemma_advanced_covered(cursor: u64, rows: Seq<TailRow>)
    requires
        forall|i: int| 0 <= i < rows.len() ==> cursor >= #[trigger] rows[i].timestamp,
    ensures
        advanced(cursor, rows) == cursor,
    decreases rows.len(),
{
    if rows.len() > 0 {
        let pre = rows.drop_last();
        assert forall|i: int| 0 <= i < pre.len() implies cursor >= #[trigger] pre[i].timestamp by {
            assert(pre[i] == rows[i]);
        }
        lemma_advanced_covered(cursor, pre);
        assert(rows[rows.len() - 1] == rows.last());
    }
}

impl FieldTail {
    /// The cursor.
    pub closed spec fn cursor(self) -> u64 {
        self.cursor
    }

    /// The local node's public key.
    pub closed spec fn local(self) -> Seq<u8> {
        self.local_node_pubkey@
    }

    /// A tail that resumes from the persisted cursor, or from zero where
    /// there is none.
    pub fn new(persisted: Option<u64>, local_node_pubkey: [u8; 32]) -> (t: Self)
        ensures
            t.cursor() == match persisted {
                Some(c) => c,
                None => 0,
            },
            t.local() == local_node_pubkey@,
    {
        let cursor = match persisted {
            Some(c) => c,
            None => 0,
        };
        FieldTail { cursor, local_node_pubkey }
    }

    /// Seeds the cursor with the timestamp through which the field was
    /// already excited at boot. The cursor only moves forward; the result is
    /// the cursor to persist where it moved.
    pub fn seed_cursor(&mut self, ts_ms: u64) -> (persist: Option<u64>)
        ensures
            final(self).cursor() == if ts_ms > old(self).cursor() { ts_ms } else { old(self).cursor() },
            final(self).local() == old(self).local(),
            persist == if ts_ms > old(self).cursor() { Some(ts_ms) } else { None::<u64> },
    {
        if ts_ms > self.cursor {
            self.cursor = ts_ms;
            Some(ts_ms)
        } else {
            None
        }
    }

    /// The cursor.
    pub fn current_cursor(&self) -> (c: u64)
        ensures
            c == self.cursor(),
    {
        self.cursor
    }

    /// The cursor as the store's signed timestamps take it: values past
    /// `i64::MAX` saturate.
    pub fn query_cursor(&self) -> (c: i64)
        ensures
            c == if self.cursor() <= i64::MAX { self.cursor() as i64 } else { i64::MAX },
    {
        if self.cursor <= i64::MAX as u64 {
            self.cursor as i64
        } else {
            i64::MAX
        }
    }

    /// Handles the rows read after the cursor: every row is counted, the
    /// local ones excite the field, and the cursor moves to the latest
    /// timestamp read, where that is later.
    pub fn poll_once(&mut self, rows: &[TailRow]) -> (o: PollOutcome)
        ensures
            o.processed == rows@.len(),
            o.excite@.len() == rows@.len(),
            forall|i: int| 0 <= i < rows@.len() ==> #[trigger] o.excite@[i] == (rows@[i].node_pubkey@ == old(self).local()),
            final(self).cursor() == advanced(old(self).cursor(), rows@),
            final(self).cursor() >= old(self).cursor(),
            forall|i: int| 0 <= i < rows@.len() ==> final(self).cursor() >= #[trigger] rows@[i].timestamp,
            final(self).local() == old(self).local(),
            o.persist == if advanced(old(self).cursor(), rows@) > old(self).cursor() {
                Some(advanced(old(self).cursor(), rows@))
            } else {
                None::<u64>
            },
    {
        let cursor = self.cursor;
        let mut max_ts = cursor;
        let mut excite: Vec<bool> = Vec::new();
        let mut i: usize = 0;
        while i < rows.len()
            invariant
                i <= rows@.len(),
                max_ts == advanced(cursor, rows@.take(i as int)),
                excite@.len() == i,
                forall|q: int| 0 <= q < i ==> #[trigger] excite@[q] == (rows@[q].node_pubkey@ == self.local_node_pubkey@),
            decreases rows@.len() - i,
        {
            let local = same_key(&rows[i].node_pubkey, &self.local_node_pubkey);
            excite.push(local);
            if rows[i].timestamp > max_ts {
                max_ts = rows[i].timestamp;
            }
            proof {
                assert(rows@.take(i + 1).drop_last() =~= rows@.take(i as int));
            }
            i = i + 1;
        }
        proof {
            assert(rows@.take(rows@.len() as int) =~= rows@);
            lemma_advanced_bounds(cursor, rows@);
        }
        let persist = if max_ts > cursor {
            self.cursor = max_ts;
            Some(max_ts)
        } else {
            None
        };
        PollOutcome { processed: rows.len(), excite, persist }
    }
}

/// The value the store is queried with for cursor `c`: values past
/// `i64::MAX` saturate.
pub open spec fn query_of(c: u64) -> i64 {
    if c <= i64::MAX {
        c as i64
    } else {
        i64::MAX
    }
}

/// The cursor after the first `n` reads of a drain that started at `c0`.
pub open spec fn cursor_after(c0: u64, reads: Seq<Seq<TailRow>>, n: int) -> u64
    decreases n,
{
    if n <= 0 {
        c0
    } else {
        advanced(cursor_after(c0, reads, n - 1), reads[n - 1])
    }
}

/// The number of rows of the first `n` reads, saturating at `usize::MAX`.
pub open spec fn rows_counted(reads: Seq<Seq<TailRow>>, n: int) -> usize
    decreases n,
{
    if n <= 0 {
        0
    } else {
        let p = rows_counted(reads, n - 1) + reads[n - 1].len();
        if p > usize::MAX {
            usize::MAX
        } else {
            p as usize
        }
    }
}

/// `o` is what [`FieldTail::poll_once`] gives for `rows` read at cursor `c`
/// by the tail of the node `local`.
pub open spec fn polled(c: u64, local: Seq<u8>, rows: Seq<TailRow>, o: PollOutcome) -> bool {
    &&& o.processed == rows.len()
    &&& o.excite@.len() == rows.len()
    &&& forall|i: int| 0 <= i < rows.len() ==> #[trigger] o.excite@[i] == (rows[i].node_pubkey@ == local)
    &&& o.persist == if advanced(c, rows) > c {
        Some(advanced(c, rows))
    } else {
        None::<u64>
    }
}

/// `fetch` gave `rows` for the query `q`.
pub open spec fn read_at<F: Fn(i64) -> Vec<TailRow>>(fetch: F, q: i64, rows: Seq<TailRow>) -> bool {
    exists|v: Vec<TailRow>| v@ == rows && #[trigger] fetch.ensures((q,), v)
}

/// `rows`, read at cursor `c`, were handed to `apply` with the outcome of
/// polling them.
pub open spec fn handed_on<A: Fn(&[TailRow], &PollOutcome)>(apply: A, c: u64, local: Seq<u8>, rows: Seq<TailRow>) -> bool {
    exists|r: &[TailRow], o: &PollOutcome| r@ == rows && polled(c, local, rows, *o) && #[trigger] apply.ensures((r, o), ())
}

/// `reads` are the reads of a drain that started at `c0`, ended with cursor
/// `last` and counted `total` rows: each read was fetched at the cursor of
/// its moment and handed on with its outcome; every read but the last held
/// rows and moved the cursor; the last was empty or left the cursor where it
/// was.
pub open spec fn drained<F: Fn(i64) -> Vec<TailRow>, A: Fn(&[TailRow], &PollOutcome)>(
    fetch: F,
    apply: A,
    c0: u64,
    local: Seq<u8>,
    reads: Seq<Seq<TailRow>>,
    total: usize,
    last: u64,
) -> bool {
    let n = reads.len() as int;
    &&& n >= 1
    &&& forall|i: int|
        #![trigger reads[i]]
        0 <= i < n ==> read_at(fetch, query_of(cursor_after(c0, reads, i)), reads[i]) && handed_on(
            apply,
            cursor_after(c0, reads, i),
            local,
            reads[i],
        )
    &&& forall|i: int|
        #![trigger reads[i]]
        0 <= i < n - 1 ==> reads[i].len() > 0 && cursor_after(c0, reads, i + 1) != cursor_after(c0, reads, i)
    &&& reads[n - 1].len() == 0 || cursor_after(c0, reads, n) == cursor_after(c0, reads, n - 1)
    &&& last == cursor_after(c0, reads, n)
    &&& total == rows_counted(reads, n)
}

/// Reading on does not change what the earlier reads led to.
proof fn lemma_reads_prefix(c0: u64, reads: Seq<Seq<TailRow>>, r: Seq<TailRow>, i: int)
    requires
        0 <= i <= reads.len(),
    ensures
        cursor_after(c0, reads.push(r), i) == cursor_after(c0, reads, i),
        rows_counted(reads.push(r), i) == rows_counted(reads, i),
    decreases i,
{
    if i > 0 {
        lemma_reads_prefix(c0, reads, r, i - 1);
        assert(reads.push(r)[i - 1] == reads[i - 1]);
    }
}

impl FieldTail {
    /// Drains the backlog: reads the rows after the cursor with `fetch`,
    /// handles them as [`Self::poll_once`] does and hands the rows and the
    /// outcome to `apply`, until a read comes back empty. A read whose rows
    /// do not move the cursor also ends the drain, since reading again would
    /// return them again. The result is the number of rows read, saturating.
    pub fn drain<Fetch: Fn(i64) -> Vec<TailRow>, Apply: Fn(&[TailRow], &PollOutcome)>(
        &mut self,
        fetch: Fetch,
        apply: Apply,
    ) -> (total: usize)
        requires
            forall|q: i64| #[trigger] fetch.requires((q,)),
            forall|rows: &[TailRow], o: &PollOutcome| #[trigger] apply.requires((rows, o)),
        ensures
            final(self).cursor() >= old(self).cursor(),
            final(self).local() == old(self).local(),
            exists|reads: Seq<Seq<TailRow>>|
                #[trigger] drained(fetch, apply, old(self).cursor(), old(self).local(), reads, total, final(self).cursor()),
    {
        let ghost c0 = self.cursor();
        let ghost local = self.local();
        let ghost mut reads: Seq<Seq<TailRow>> = Seq::empty();
        let mut total: usize = 0;
        loop
            invariant
                self.cursor() >= c0,
                self.local() == local,
                c0 == old(self).cursor(),
                local == old(self).local(),
                forall|q: i64| #[trigger] fetch.requires((q,)),
                forall|rows: &[TailRow], o: &PollOutcome| #[trigger] apply.requires((rows, o)),
                self.cursor() == cursor_after(c0, reads, reads.len() as int),
                total == rows_counted(reads, reads.len() as int),
                forall|i: int|
                    #![trigger reads[i]]
                    0 <= i < reads.len() ==> read_at(fetch, query_of(cursor_after(c0, reads, i)), reads[i])
                        && handed_on(apply, cursor_after(c0, reads, i), local, reads[i]),
                forall|i: int|
                    #![trigger reads[i]]
                    0 <= i < reads.len() ==> reads[i].len() > 0 && cursor_after(c0, reads, i + 1) != cursor_after(
                        c0,
                        reads,
                        i,
                    ),
            decreases u64::MAX - self.cursor(),
        {
            let before = self.cursor;
            let q = self.query_cursor();
            let rows = fetch(q);
            let outcome = self.poll_once(rows.as_slice());
            let s = rows.as_slice();
            apply(s, &outcome);
            let ghost old_reads = reads;
            proof {
                reads = reads.push(rows@);
                let n = old_reads.len() as int;
                lemma_reads_prefix(c0, old_reads, rows@, n);
                assert(reads[n] == rows@);
                assert(cursor_after(c0, reads, n + 1) == advanced(before, rows@));
                assert(read_at(fetch, query_of(cursor_after(c0, reads, n)), reads[n]));
                assert(polled(before, local, rows@, outcome));
                assert(apply.ensures((s, &outcome), ()));
                assert(handed_on(apply, cursor_after(c0, reads, n), local, reads[n]));
                assert forall|i: int| #![trigger reads[i]] 0 <= i < n implies read_at(
                    fetch,
                    query_of(cursor_after(c0, reads, i)),
                    reads[i],
                ) && handed_on(apply, cursor_after(c0, reads, i), local, reads[i]) && (reads[i].len() > 0
                    && cursor_after(c0, reads, i + 1) != cursor_after(c0, reads, i)) by {
                    lemma_reads_prefix(c0, old_reads, rows@, i);
                    lemma_reads_prefix(c0, old_reads, rows@, i + 1);
                    assert(reads[i] == old_reads[i]);
                    assert(old_reads[i] == old_reads[i]);
                }
            }
            match drain_step(total, outcome.processed) {
                Err(done) => {
                    proof {
                        assert(drained(fetch, apply, c0, local, reads, done, self.cursor()));
                    }
                    return done;
                },
                Ok(next) => {
                    total = next;
                },
            }
            if self.cursor == before {
                proof {
                    assert(drained(fetch, apply, c0, local, reads, total, self.cursor()));
                }
                return total;
            }
        }
    }
}

/// Whether two public keys are the same.
fn same_key(a: &[u8; 32], b: &[u8; 32]) -> (r: bool)
    ensures
        r == (a@ == b@),
{
    let mut i: usize = 0;
    while i < 32
        invariant
            i <= 32,
            forall|k: int| 0 <= k < i ==> a@[k] == b@[k],
        decreases 32 - i,
    {
        if a[i] != b[i] {
            return false;
        }
        i = i + 1;
    }
    assert(a@ =~= b@);
    true
}

/// The cursor a cursor file holds: its timestamp, where the file is of the
/// current version.
pub fn cursor_from_file(version: u32, last_processed_timestamp_ms: u64) -> (c: Option<u64>)
    ensures
        c == if version == CURSOR_VERSION { Some(last_processed_timestamp_ms) } else { None::<u64> },
{
    if version != CURSOR_VERSION {
        None
    } else {
        Some(last_processed_timestamp_ms)
    }
}

/// What draining does after a poll that read `n` rows, with `total` read
/// before it: stop with the total when the poll read nothing, else go on.
pub fn drain_step(total: usize, n: usize) -> (next: Result<usize, usize>)
    ensures
        n == 0 ==> next == Err::<usize, usize>(total),
        n > 0 ==> next == Ok::<usize, usize>(if total + n <= usize::MAX { (total + n) as usize } else { usize::MAX }),
{
    if n == 0 {
        Err(total)
    } else {
        Ok(total.saturating_add(n))
    }
}

/// The cursor to seed at boot: on a cold start the field was hydrated from
/// the store through its latest agent trace, whose timestamp (negative ones
/// read as zero) the tail skips past; on a warm start the persisted cursor
/// governs and nothing is seeded.
pub fn boot_seed(cold_start: bool, latest_agent_trace_ms: Option<i64>) -> (seed: Option<u64>)
    ensures
        seed == if cold_start && latest_agent_trace_ms is Some {
            let ts = latest_agent_trace_ms->0;
            Some(if ts < 0 { 0u64 } else { ts as u64 })
        } else {
            None::<u64>
        },
{
    match latest_agent_trace_ms {
        Some(ts) if cold_start => Some(if ts < 0 { 0 } else { ts as u64 }),
        _ => None,
    }
}

/// Whether boot restores the field from its snapshot: only where that is
/// tried and the snapshot was read; otherwise the field is hydrated from
/// the store and the start is cold.
pub fn restores_from_snapshot(try_disk_first: bool, snapshot_read: bool) -> (b: bool)
    ensures
        b == (try_disk_first && snapshot_read),
{
    try_disk_first && snapshot_read
}

} // verus!
