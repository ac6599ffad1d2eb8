//! Workspace state: persistent context across AI sessions.
//!
//! A lightweight record of what the AI was doing: recently touched files,
//! recent errors and recent sessions, so that the next session can pick up
//! where the last one left off.

use vstd::prelude::*;

use crate::clock::{elapsed_below, now_millis};
use crate::text::{
    concat_str, decimal_string, has_infix, join_path, join_strings, path_joined, joined, opt_str_view, opt_string_view, str_contains, str_eq, signed_decimal_string, spec_decimal, spec_signed_decimal, views,
};
use vstd::string::StringSliceAdditionalSpecFns;
use vstd::utf8::{decode_utf8, encode_utf8, is_char_boundary};

verus! {

/// Most recent file entries kept.
pub const MAX_RECENT_FILES: usize = 20;

/// Most recent error entries kept.
pub const MAX_RECENT_ERRORS: usize = 10;

/// Most recent sessions kept.
pub const MAX_SESSIONS: usize = 5;

/// Most capabilities remembered per session.
pub const MAX_SESSION_CAPABILITIES: usize = 3;

/// A repeated touch of the same file with the same action within this many
/// milliseconds updates the entry instead of adding one.
pub const FILE_DEDUP_WINDOW_MS: i64 = 2000;

/// Name of the workspace file in the data directory.
pub const WORKSPACE_FILE: &'static str = "workspace.json";

/// A file that was recently touched by the AI.
pub struct RecentFile {
    pub path: String,
    /// `read`, `write`, `edit` or `grep`.
    pub action: String,
    /// What was done.
    pub context: String,
    pub timestamp_ms: i64,
    /// `succeeded` or `failed`.
    pub outcome: String,
}

/// An error the AI encountered.
pub struct RecentError {
    pub tool: String,
    pub context: String,
    pub error_snippet: String,
    pub timestamp_ms: i64,
}

/// A session summary.
pub struct SessionSummary {
    pub session_id: String,
    pub started_ms: i64,
    pub last_seen_ms: i64,
    pub tool_count: u32,
    pub error_count: u32,
    /// The top capabilities used in this session: the first three.
    pub top_capabilities: Vec<String>,
}

/// The workspace state file.
pub struct WorkspaceState {
    /// Recently touched files, most recent first.
    pub recent_files: std::collections::VecDeque<RecentFile>,
    /// Recent errors, most recent first.
    pub recent_errors: std::collections::VecDeque<RecentError>,
    /// Recent sessions, most recently started first.
    pub sessions: std::collections::VecDeque<SessionSummary>,
    /// Last update, in milliseconds since the epoch.
    pub updated_ms: i64,
}

/// `caps` with `cap` appended, unless it is already listed or three are.
pub fn add_capability(caps: Vec<String>, cap: String) -> (out: Vec<String>)
    ensures
        views(out@) == if !views(caps@).contains(cap@) && caps@.len() < MAX_SESSION_CAPABILITIES {
            views(caps@).push(cap@)
        } else {
            views(caps@)
        },
{
    let mut out = caps;
    let mut j: usize = 0;
    while j < out.len()
        invariant
            j <= out@.len(),
            out@ == caps@,
            forall|q: int| 0 <= q < j ==> out@[q]@ != cap@,
        decreases out@.len() - j,
    {
        if out[j] == cap {
            assert(views(out@)[j as int] == cap@);
            return out;
        }
        j = j + 1;
    }
    assert(!views(out@).contains(cap@)) by {
        if views(out@).contains(cap@) {
            let q = choose|q: int| 0 <= q < views(out@).len() && views(out@)[q] == cap@;
            assert(out@[q]@ == cap@);
        }
    }
    if out.len() < MAX_SESSION_CAPABILITIES {
        let ghost before = out@;
        out.push(cap);
        assert(views(out@) =~= views(before).push(cap@));
    }
    out
}

impl WorkspaceState {
    /// The path of the workspace file in the data directory `data_dir`.
    pub fn path(data_dir: &str) -> (p: String)
        ensures
            p@ == path_joined(data_dir@, WORKSPACE_FILE@),
    {
        join_path(data_dir, WORKSPACE_FILE)
    }
}

impl WorkspaceState {
    /// The empty workspace.
    pub fn new() -> (w: Self)
        ensures
            w.recent_files@.len() == 0,
            w.recent_errors@.len() == 0,
            w.sessions@.len() == 0,
            w.updated_ms == 0,
            w.capabilities_ok(),
    {
        WorkspaceState {
            recent_files: std::collections::VecDeque::new(),
            recent_errors: std::collections::VecDeque::new(),
            sessions: std::collections::VecDeque::new(),
            updated_ms: 0,
        }
    }

    /// Whether recording `path` with `action` at `now` updates the newest
    /// file entry instead of adding one.
    pub open spec fn refreshes_front(self, path: Seq<char>, action: Seq<char>, now: i64) -> bool {
        self.recent_files@.len() > 0 && self.recent_files@[0].path@ == path
            && self.recent_files@[0].action@ == action && now - self.recent_files@[0].timestamp_ms
            < FILE_DEDUP_WINDOW_MS
    }

    /// `after` is this state once `path` was recorded with `action`,
    /// `context` and `outcome` at `now`.
    pub open spec fn file_recorded(
        self,
        after: WorkspaceState,
        path: String,
        action: Seq<char>,
        context: String,
        outcome: Seq<char>,
        now: i64,
    ) -> bool {
        &&& self.refreshes_front(path@, action, now) ==> {
            &&& after.recent_files@ == self.recent_files@.update(
                0,
                RecentFile { timestamp_ms: now, context: context, outcome: after.recent_files@[0].outcome, ..self.recent_files@[0] },
            )
            &&& after.recent_files@[0].outcome@ == outcome
            &&& after.updated_ms == self.updated_ms
        }
        &&& !self.refreshes_front(path@, action, now) ==> {
            let added = seq![after.recent_files@[0]] + self.recent_files@;
            &&& after.recent_files@ == added.take(
                if added.len() > MAX_RECENT_FILES { MAX_RECENT_FILES as int } else { added.len() as int },
            )
            &&& after.recent_files@[0].path == path
            &&& after.recent_files@[0].action@ == action
            &&& after.recent_files@[0].context == context
            &&& after.recent_files@[0].timestamp_ms == now
            &&& after.recent_files@[0].outcome@ == outcome
            &&& after.updated_ms == now
        }
        &&& after.recent_errors == self.recent_errors
        &&& after.sessions == self.sessions
    }

    /// Records at `now` that the AI touched `path` with `action`.
    pub fn record_file_at(&mut self, path: String, action: &str, context: String, outcome: &str, now: i64)
        ensures
            old(self).file_recorded(*final(self), path, action@, context, outcome@, now),
    {
        broadcast use vstd::std_specs::vecdeque::group_vec_dequeue_axioms;
        if self.recent_files.len() > 0 {
            let same = self.recent_files[0].path == path && self.recent_files[0].action.as_str().to_owned()
                == action.to_owned() && elapsed_below(now, self.recent_files[0].timestamp_ms, FILE_DEDUP_WINDOW_MS);
            if same {
                let ghost before = self.recent_files@;
                let front = self.recent_files.pop_front();
                match front {
                    Some(f) => {
                        let updated = RecentFile {
                            timestamp_ms: now,
                            context,
                            outcome: outcome.to_owned(),
                            ..f
                        };
                        self.recent_files.push_front(updated);
                        assert(self.recent_files@ =~= before.update(0, self.recent_files@[0]));
                    },
                    None => {},
                }
                return;
            }
        }
        let ghost before = self.recent_files@;
        self.recent_files.push_front(
            RecentFile { path, action: action.to_owned(), context, timestamp_ms: now, outcome: outcome.to_owned() },
        );
        let ghost added = self.recent_files@;
        self.recent_files.truncate(MAX_RECENT_FILES);
        assert(added == seq![self.recent_files@[0]] + before);
        assert(self.recent_files@ =~= added.take(
            if added.len() > MAX_RECENT_FILES { MAX_RECENT_FILES as int } else { added.len() as int },
        ));
        self.updated_ms = now;
    }

    /// [`Self::record_file_at`] at the current time.
    pub fn record_file(&mut self, path: String, action: &str, context: String, outcome: &str)
        ensures
            exists|now: i64| old(self).file_recorded(*final(self), path, action@, context, outcome@, now),
    {
        let now = now_millis();
        self.record_file_at(path, action, context, outcome, now);
    }

    /// Records at `now` an error that `tool` hit.
    pub fn record_error_at(&mut self, tool: &str, context: String, error_snippet: String, now: i64)
        ensures
            ({
                let added = seq![final(self).recent_errors@[0]] + old(self).recent_errors@;
                &&& final(self).recent_errors@ == added.take(
                    if added.len() > MAX_RECENT_ERRORS { MAX_RECENT_ERRORS as int } else { added.len() as int },
                )
                &&& final(self).recent_errors@[0].tool@ == tool@
                &&& final(self).recent_errors@[0].context == context
                &&& final(self).recent_errors@[0].error_snippet == error_snippet
                &&& final(self).recent_errors@[0].timestamp_ms == now
            }),
            final(self).updated_ms == now,
            final(self).recent_files == old(self).recent_files,
            final(self).sessions == old(self).sessions,
    {
        broadcast use vstd::std_specs::vecdeque::group_vec_dequeue_axioms;
        let ghost before = self.recent_errors@;
        self.recent_errors.push_front(RecentError { tool: tool.to_owned(), context, error_snippet, timestamp_ms: now });
        let ghost added = self.recent_errors@;
        self.recent_errors.truncate(MAX_RECENT_ERRORS);
        assert(added == seq![self.recent_errors@[0]] + before);
        assert(self.recent_errors@ =~= added.take(
            if added.len() > MAX_RECENT_ERRORS { MAX_RECENT_ERRORS as int } else { added.len() as int },
        ));
        self.updated_ms = now;
    }

    /// [`Self::record_error_at`] at the current time.
    pub fn record_error(&mut self, tool: &str, context: String, error_snippet: String)
        ensures
            final(self).recent_errors@.len() > 0,
            final(self).recent_errors@[0].tool@ == tool@,
            final(self).recent_errors@[0].error_snippet == error_snippet,
            final(self).updated_ms == final(self).recent_errors@[0].timestamp_ms,
            final(self).recent_errors@.subrange(1, final(self).recent_errors@.len() as int)
                =~= old(self).recent_errors@.take(final(self).recent_errors@.len() - 1),
    {
        let now = now_millis();
        self.record_error_at(tool, context, error_snippet, now);
    }

    /// Position `i` holds the first session with id `id`.
    pub open spec fn is_session_at(self, id: Seq<char>, i: int) -> bool {
        &&& 0 <= i < self.sessions@.len()
        &&& self.sessions@[i].session_id@ == id
        &&& forall|j: int| 0 <= j < i ==> (#[trigger] self.sessions@[j]).session_id@ != id
    }

    /// Some session has id `id`.
    pub open spec fn has_session(self, id: Seq<char>) -> bool {
        exists|i: int| 0 <= i < self.sessions@.len() && (#[trigger] self.sessions@[i]).session_id@ == id
    }

    /// Tracking one more tool call of session `id` does not overflow its
    /// counters.
    pub open spec fn can_track(self, id: Seq<char>, is_error: bool) -> bool {
        forall|i: int|
            self.is_session_at(id, i) ==> (#[trigger] self.sessions@[i]).tool_count < u32::MAX && (is_error
                ==> self.sessions@[i].error_count < u32::MAX)
    }

    /// `after` is this state once a call of `capability` in session `id` was
    /// tracked at `now`.
    pub open spec fn session_tracked(
        self,
        after: WorkspaceState,
        id: Seq<char>,
        capability: Seq<char>,
        is_error: bool,
        now: i64,
    ) -> bool {
        &&& after.updated_ms == now
        &&& after.recent_files == self.recent_files
        &&& after.recent_errors == self.recent_errors
        &&& forall|i: int|
            self.is_session_at(id, i) ==> {
                let old_s = #[trigger] self.sessions@[i];
                let new_s = after.sessions@[i];
                let caps = views(old_s.top_capabilities@);
                &&& after.sessions@ == self.sessions@.update(i, new_s)
                &&& new_s.session_id == old_s.session_id
                &&& new_s.started_ms == old_s.started_ms
                &&& new_s.last_seen_ms == now
                &&& new_s.tool_count == old_s.tool_count + 1
                &&& new_s.error_count == old_s.error_count + if is_error { 1int } else { 0int }
                &&& views(new_s.top_capabilities@) == if !caps.contains(capability) && caps.len()
                    < MAX_SESSION_CAPABILITIES {
                    caps.push(capability)
                } else {
                    caps
                }
            }
        &&& !self.has_session(id) ==> {
            let new_s = after.sessions@[0];
            let added = seq![new_s] + self.sessions@;
            &&& after.sessions@ == added.take(
                if added.len() > MAX_SESSIONS { MAX_SESSIONS as int } else { added.len() as int },
            )
            &&& new_s.session_id@ == id
            &&& new_s.started_ms == now
            &&& new_s.last_seen_ms == now
            &&& new_s.tool_count == 1
            &&& new_s.error_count == if is_error { 1u32 } else { 0u32 }
            &&& views(new_s.top_capabilities@) == seq![capability]
        }
    }

    /// Tracks at `now` one tool call of `capability` in session `session_id`.
    pub fn track_session_at(&mut self, session_id: &str, capability: &str, is_error: bool, now: i64)
        requires
            old(self).can_track(session_id@, is_error),
        ensures
            old(self).session_tracked(*final(self), session_id@, capability@, is_error, now),
    {
        broadcast use vstd::std_specs::vecdeque::group_vec_dequeue_axioms;
        let id = session_id.to_owned();
        let cap = capability.to_owned();
        let mut i: usize = 0;
        while i < self.sessions.len()
            invariant
                i <= self.sessions@.len(),
                id@ == session_id@,
                self.sessions@ == old(self).sessions@,
                forall|j: int| 0 <= j < i ==> (#[trigger] self.sessions@[j]).session_id@ != session_id@,
            ensures
                i <= self.sessions@.len(),
                self.sessions@ == old(self).sessions@,
                forall|j: int| 0 <= j < i ==> (#[trigger] self.sessions@[j]).session_id@ != session_id@,
                i < self.sessions@.len() ==> self.sessions@[i as int].session_id@ == session_id@,
            decreases self.sessions@.len() - i,
        {
            if self.sessions[i].session_id == id {
                break;
            }
            i = i + 1;
        }
        let ghost old_sessions = self.sessions@;
        if i < self.sessions.len() {
            assert(old(self).is_session_at(session_id@, i as int));
            let removed = self.sessions.remove(i);
            match removed {
                Some(s) => {
                    let caps = add_capability(s.top_capabilities, cap);
                    let updated = SessionSummary {
                        last_seen_ms: now,
                        tool_count: s.tool_count + 1,
                        error_count: if is_error { s.error_count + 1 } else { s.error_count },
                        top_capabilities: caps,
                        ..s
                    };
                    self.sessions.insert(i, updated);
                    assert(self.sessions@ =~= old_sessions.update(i as int, self.sessions@[i as int]));
                },
                None => {},
            }
            proof {
                assert forall|j: int| old(self).is_session_at(session_id@, j) implies j == i by {
                    if j < i {
                    } else if j > i {
                        assert(old_sessions[i as int].session_id@ == session_id@);
                    }
                }
            }
        } else {
            let mut caps: Vec<String> = Vec::new();
            caps.push(cap);
            let fresh = SessionSummary {
                session_id: id,
                started_ms: now,
                last_seen_ms: now,
                tool_count: 1,
                error_count: if is_error { 1 } else { 0 },
                top_capabilities: caps,
            };
            self.sessions.push_front(fresh);
            let ghost added = self.sessions@;
            self.sessions.truncate(MAX_SESSIONS);
            proof {
                assert(added == seq![self.sessions@[0]] + old_sessions);
                assert(self.sessions@ =~= added.take(
                    if added.len() > MAX_SESSIONS { MAX_SESSIONS as int } else { added.len() as int },
                ));
                assert(views(self.sessions@[0].top_capabilities@) =~= seq![capability@]);
                assert forall|j: int| !old(self).is_session_at(session_id@, j) by {}
            }
        }
        self.updated_ms = now;
    }

    /// Every session lists at most `MAX_SESSION_CAPABILITIES` capabilities,
    /// none twice.
    pub open spec fn capabilities_ok(self) -> bool {
        forall|i: int|
            0 <= i < self.sessions@.len() ==> {
                let caps = views((#[trigger] self.sessions@[i]).top_capabilities@);
                caps.len() <= MAX_SESSION_CAPABILITIES && caps.no_duplicates()
            }
    }

    /// Some position holds the first session with id `id`, where a session
    /// at `j` has it.
    proof fn lemma_first_session(self, id: Seq<char>, j: int)
        requires
            0 <= j < self.sessions@.len(),
            self.sessions@[j].session_id@ == id,
        ensures
            exists|i: int| self.is_session_at(id, i),
        decreases j,
    {
        if exists|k: int| 0 <= k < j && (#[trigger] self.sessions@[k]).session_id@ == id {
            let k = choose|k: int| 0 <= k < j && (#[trigger] self.sessions@[k]).session_id@ == id;
            self.lemma_first_session(id, k);
        } else {
            assert(self.is_session_at(id, j));
        }
    }

    /// Tracking a tool call keeps every session at most
    /// `MAX_SESSION_CAPABILITIES` capabilities, none listed twice.
    pub proof fn lemma_tracking_keeps_capabilities(
        self,
        after: WorkspaceState,
        id: Seq<char>,
        capability: Seq<char>,
        is_error: bool,
        now: i64,
    )
        requires
            self.capabilities_ok(),
            self.session_tracked(after, id, capability, is_error, now),
        ensures
            after.capabilities_ok(),
    {
        if self.has_session(id) {
            let j = choose|j: int| 0 <= j < self.sessions@.len() && (#[trigger] self.sessions@[j]).session_id@ == id;
            self.lemma_first_session(id, j);
            let i = choose|i: int| self.is_session_at(id, i);
            let old_s = self.sessions@[i];
            let new_s = after.sessions@[i];
            let caps = views(old_s.top_capabilities@);
            assert(after.sessions@ == self.sessions@.update(i, new_s));
            assert forall|q: int| 0 <= q < after.sessions@.len() implies {
                let c = views((#[trigger] after.sessions@[q]).top_capabilities@);
                c.len() <= MAX_SESSION_CAPABILITIES && c.no_duplicates()
            } by {
                if q != i {
                    assert(after.sessions@[q] == self.sessions@[q]);
                } else if !caps.contains(capability) && caps.len() < MAX_SESSION_CAPABILITIES {
                    let c = caps.push(capability);
                    assert(views(new_s.top_capabilities@) == c);
                    assert forall|a: int, b: int| 0 <= a < c.len() && 0 <= b < c.len() && a != b implies c[a] != c[b] by {
                        if a == caps.len() as int {
                            assert(c[b] == caps[b]);
                        } else if b == caps.len() as int {
                            assert(c[a] == caps[a]);
                        }
                    }
                }
            }
        } else {
            let new_s = after.sessions@[0];
            let added = seq![new_s] + self.sessions@;
            assert forall|q: int| 0 <= q < after.sessions@.len() implies {
                let c = views((#[trigger] after.sessions@[q]).top_capabilities@);
                c.len() <= MAX_SESSION_CAPABILITIES && c.no_duplicates()
            } by {
                assert(after.sessions@[q] == added[q]);
                if q > 0 {
                    assert(added[q] == self.sessions@[q - 1]);
                }
            }
        }
    }
}

/// `a / b` rounded toward zero, as Rust divides integers.
pub open spec fn trunc_div(a: int, b: int) -> int {
    if a >= 0 {
        a / b
    } else {
        -((-a) / b)
    }
}

/// How long ago `then` was at `now`: whole seconds under a minute (negative
/// for future times), else whole minutes under an hour, hours under a day,
/// and days.
pub open spec fn spec_age_str(now: int, then: int) -> Seq<char> {
    let d = trunc_div(now - then, 1000);
    if d < 60 {
        spec_signed_decimal(d) + "s ago"@
    } else if d < 3600 {
        spec_decimal((d / 60) as nat) + "m ago"@
    } else if d < 86400 {
        spec_decimal((d / 3600) as nat) + "h ago"@
    } else {
        spec_decimal((d / 86400) as nat) + "d ago"@
    }
}

impl WorkspaceState {
    /// How long ago `then_ms` was at `now_ms`.
    pub fn age_str(now_ms: i64, then_ms: i64) -> (s: String)
        ensures
            s@ == spec_age_str(now_ms as int, then_ms as int),
    {
        let diff: i128 = (now_ms as i128) - (then_ms as i128);
        let diff_s: i128 = if diff >= 0 {
            diff / 1000
        } else {
            -((-diff) / 1000)
        };
        proof {
            reveal_strlit("s ago");
            reveal_strlit("m ago");
            reveal_strlit("h ago");
            reveal_strlit("d ago");
        }
        if diff_s < 60 {
            concat_str(signed_decimal_string(diff_s as i64), "s ago")
        } else if diff_s < 3600 {
            concat_str(decimal_string((diff_s / 60) as u64), "m ago")
        } else if diff_s < 86400 {
            concat_str(decimal_string((diff_s / 3600) as u64), "h ago")
        } else {
            concat_str(decimal_string((diff_s / 86400) as u64), "d ago")
        }
    }
}

/// Files touched within this many milliseconds show in the error hints.
pub const ERROR_HINT_WINDOW_MS: i64 = 3600000;

/// A workspace untouched for longer than this gives no hints.
pub const STALE_AFTER_MS: i64 = 86400000;

/// The previous session is mentioned once it has been idle this long.
pub const SESSION_IDLE_MS: i64 = 288000;

/// Longest error snippet, in bytes, shown unshortened.
pub const SNIPPET_SHOWN_BYTES: usize = 120;

/// The first `n` elements of `s`, or all of them when there are fewer.
pub open spec fn first_n<A>(s: Seq<A>, n: int) -> Seq<A> {
    if s.len() <= n {
        s
    } else {
        s.take(n)
    }
}

/// The entries about `file`, most recent first.
pub open spec fn entries_for(files: Seq<RecentFile>, file: Seq<char>) -> Seq<RecentFile>
    decreases files.len(),
{
    if files.len() == 0 {
        seq![]
    } else if files.last().path@ == file {
        entries_for(files.drop_last(), file).push(files.last())
    } else {
        entries_for(files.drop_last(), file)
    }
}

/// The errors of `tool` from the last hour before `now`, most recent first.
pub open spec fn errors_for(errors: Seq<RecentError>, tool: Seq<char>, now: int) -> Seq<RecentError>
    decreases errors.len(),
{
    if errors.len() == 0 {
        seq![]
    } else if errors.last().tool@ == tool && now - errors.last().timestamp_ms < ERROR_HINT_WINDOW_MS {
        errors_for(errors.drop_last(), tool, now).push(errors.last())
    } else {
        errors_for(errors.drop_last(), tool, now)
    }
}

/// An error snippet as shown: cut after 120 bytes, followed by `...`.
pub open spec fn snippet_shown(s: Seq<char>) -> Seq<char> {
    if encode_utf8(s).len() > SNIPPET_SHOWN_BYTES {
        decode_utf8(encode_utf8(s).take(SNIPPET_SHOWN_BYTES as int)) + "..."@
    } else {
        s
    }
}

/// Whether an error snippet can be shown: its UTF-8 length is a `usize`, as
/// that of any string in memory, and one longer than 120 bytes has no
/// character straddling its 120th byte.
pub open spec fn snippet_cuttable(s: Seq<char>) -> bool {
    &&& encode_utf8(s).len() <= usize::MAX
    &&& encode_utf8(s).len() > SNIPPET_SHOWN_BYTES ==> is_char_boundary(encode_utf8(s), SNIPPET_SHOWN_BYTES as int)
}

/// `d` milliseconds in whole hours, rounded to the nearest, halves to even.
pub open spec fn rounded_hours(d: int) -> int {
    let q = d / 3600000;
    let r = d % 3600000;
    if 2 * r > 3600000 {
        q + 1
    } else if 2 * r == 3600000 && q % 2 == 1 {
        q + 1
    } else {
        q
    }
}

pub open spec fn file_line(f: RecentFile, now: int) -> Seq<char> {
    "    "@ + spec_age_str(now, f.timestamp_ms as int) + ": "@ + f.action@ + " \u{2014} "@ + f.context@ + " ["@
        + f.outcome@ + "]"@
}

pub open spec fn error_line(e: RecentError, now: int) -> Seq<char> {
    "    "@ + spec_age_str(now, e.timestamp_ms as int) + ": "@ + snippet_shown(e.error_snippet@)
}

pub open spec fn session_line(prev: SessionSummary, now: int) -> Seq<char> {
    "  previous session ("@ + spec_decimal(rounded_hours(now - prev.last_seen_ms) as nat) + "h ago): "@
        + spec_decimal(prev.tool_count as nat) + " tool calls, "@ + spec_decimal(prev.error_count as nat)
        + " errors, used: "@ + joined(views(prev.top_capabilities@), ", "@)
}

/// The lines of a file history.
pub open spec fn file_lines(h: Seq<RecentFile>, now: int) -> Seq<Seq<char>> {
    Seq::new(h.len(), |k: int| file_line(h[k], now))
}

/// The lines of the shown errors.
pub open spec fn error_lines_of(es: Seq<RecentError>, now: int) -> Seq<Seq<char>> {
    Seq::new(es.len(), |k: int| error_line(es[k], now))
}

impl WorkspaceState {
    /// The file-history lines for `file`.
    pub open spec fn history_lines(self, file: Option<Seq<char>>, now: int) -> Seq<Seq<char>> {
        match file {
            Some(f) => {
                let h = first_n(entries_for(self.recent_files@, f), 3);
                if h.len() == 0 {
                    seq![]
                } else {
                    seq!["  file history for "@ + f + ":"@] + file_lines(h, now)
                }
            },
            None => seq![],
        }
    }

    /// The errors shown for `tool` at `now`.
    pub open spec fn shown_errors(self, tool: Seq<char>, now: int) -> Seq<RecentError> {
        first_n(errors_for(self.recent_errors@, tool, now), 2)
    }

    /// The recent-error lines for `tool`.
    pub open spec fn error_lines(self, tool: Seq<char>, now: int) -> Seq<Seq<char>> {
        let es = self.shown_errors(tool, now);
        if es.len() == 0 {
            seq![]
        } else {
            seq!["  recent "@ + tool + " errors:"@] + error_lines_of(es, now)
        }
    }

    /// The previous-session line, when the newest session has been idle for
    /// more than 0.08 hours and less than a day.
    pub open spec fn session_lines(self, now: int) -> Seq<Seq<char>> {
        if self.sessions@.len() > 0 && now - self.sessions@[0].last_seen_ms > SESSION_IDLE_MS && now
            - self.sessions@[0].last_seen_ms < STALE_AFTER_MS {
            seq![session_line(self.sessions@[0], now)]
        } else {
            seq![]
        }
    }

    /// The hints for a tool call of `tool` on `file` at `now`: nothing for an
    /// empty or stale workspace, else the history, error and session lines
    /// joined by newlines, when there are any.
    pub open spec fn spec_context_hints(self, tool: Seq<char>, file: Option<Seq<char>>, now: int) -> Option<
        Seq<char>,
    > {
        if self.updated_ms == 0 || now - self.updated_ms > STALE_AFTER_MS {
            None
        } else {
            let lines = self.history_lines(file, now) + self.error_lines(tool, now) + self.session_lines(now);
            if lines.len() == 0 {
                None
            } else {
                Some(joined(lines, "\n"@))
            }
        }
    }
}

fn file_line_exec(f: &RecentFile, now: i64) -> (s: String)
    ensures
        s@ == file_line(*f, now as int),
{
    let mut s = String::from_str("    ");
    s.append(WorkspaceState::age_str(now, f.timestamp_ms).as_str());
    s.append(": ");
    s.append(f.action.as_str());
    s.append(" \u{2014} ");
    s.append(f.context.as_str());
    s.append(" [");
    s.append(f.outcome.as_str());
    s.append("]");
    s
}

fn snippet_shown_exec(snippet: &String) -> (s: String)
    requires
        snippet_cuttable(snippet@),
    ensures
        s@ == snippet_shown(snippet@),
{
    let st = snippet.as_str();
    if st.len() > SNIPPET_SHOWN_BYTES {
        let (head, _) = st.split_at(SNIPPET_SHOWN_BYTES);
        proof {
            assert(st.spec_bytes() == encode_utf8(snippet@));
            assert(head.spec_bytes() == encode_utf8(head@));
            assert(encode_utf8(head@) =~= encode_utf8(snippet@).take(SNIPPET_SHOWN_BYTES as int));
            vstd::utf8::encode_utf8_decode_utf8(head@);
        }
        concat_str(head.to_owned(), "...")
    } else {
        snippet.clone()
    }
}

fn error_line_exec(e: &RecentError, now: i64) -> (s: String)
    requires
        snippet_cuttable(e.error_snippet@),
    ensures
        s@ == error_line(*e, now as int),
{
    let mut s = String::from_str("    ");
    s.append(WorkspaceState::age_str(now, e.timestamp_ms).as_str());
    s.append(": ");
    s.append(snippet_shown_exec(&e.error_snippet).as_str());
    s
}

/// `d` milliseconds in whole hours, rounded half to even.
fn rounded_hours_exec(d: i64) -> (h: u64)
    requires
        d >= 0,
    ensures
        h == rounded_hours(d as int),
{
    let q = d / 3600000;
    let r = d % 3600000;
    if 2 * r > 3600000 {
        (q + 1) as u64
    } else if 2 * r == 3600000 && q % 2 == 1 {
        (q + 1) as u64
    } else {
        q as u64
    }
}

fn session_line_exec(prev: &SessionSummary, now: i64) -> (s: String)
    requires
        now - prev.last_seen_ms > SESSION_IDLE_MS,
        now - prev.last_seen_ms < STALE_AFTER_MS,
    ensures
        s@ == session_line(*prev, now as int),
{
    let d: i64 = now - prev.last_seen_ms;
    let mut s = String::from_str("  previous session (");
    s.append(decimal_string(rounded_hours_exec(d)).as_str());
    s.append("h ago): ");
    s.append(decimal_string(prev.tool_count as u64).as_str());
    s.append(" tool calls, ");
    s.append(decimal_string(prev.error_count as u64).as_str());
    s.append(" errors, used: ");
    s.append(join_strings(&prev.top_capabilities, ", ").as_str());
    s
}

proof fn lemma_first_n_push<A>(s: Seq<A>, x: A, n: int)
    requires
        n >= 0,
    ensures
        first_n(s.push(x), n) == if s.len() < n { first_n(s, n).push(x) } else { first_n(s, n) },
{
    if s.len() < n {
        assert(first_n(s.push(x), n) =~= s.push(x));
    } else {
        assert(first_n(s.push(x), n) =~= first_n(s, n));
    }
}

proof fn lemma_lines_push(h: Seq<RecentFile>, f: RecentFile, es: Seq<RecentError>, e: RecentError, now: int)
    ensures
        file_lines(h.push(f), now) == file_lines(h, now).push(file_line(f, now)),
        error_lines_of(es.push(e), now) == error_lines_of(es, now).push(error_line(e, now)),
{
    assert(file_lines(h.push(f), now) =~= file_lines(h, now).push(file_line(f, now)));
    assert(error_lines_of(es.push(e), now) =~= error_lines_of(es, now).push(error_line(e, now)));
}

proof fn lemma_errors_prefix(errors: Seq<RecentError>, tool: Seq<char>, now: int, i: int)
    requires
        0 <= i <= errors.len(),
    ensures
        ({
            let a = errors_for(errors.take(i), tool, now);
            let b = errors_for(errors, tool, now);
            a.len() <= b.len() && forall|k: int| 0 <= k < a.len() ==> a[k] == b[k]
        }),
    decreases errors.len() - i,
{
    if i == errors.len() {
        assert(errors.take(i) =~= errors);
    } else {
        assert(errors.take(i + 1).drop_last() =~= errors.take(i));
        lemma_errors_prefix(errors, tool, now, i + 1);
    }
}

impl WorkspaceState {
    /// Every error shown for `tool` at `now` can be shown.
    pub open spec fn errors_showable(self, tool: Seq<char>, now: int) -> bool {
        forall|k: int|
            0 <= k < self.shown_errors(tool, now).len() ==> snippet_cuttable(
                (#[trigger] self.shown_errors(tool, now)[k]).error_snippet@,
            )
    }

    /// Context hints for a tool call of `current_tool` on `current_file`
    /// at `now`.
    pub fn context_hints_at(&self, current_tool: &str, current_file: Option<&str>, now: i64) -> (h: Option<String>)
        requires
            self.hints_safe_at(current_tool@, now as int),
        ensures
            opt_string_view(h) == self.spec_context_hints(
                current_tool@,
                opt_str_view(current_file),
                now as int,
            ),
    {
        broadcast use vstd::std_specs::vecdeque::group_vec_dequeue_axioms;
        if self.updated_ms == 0 || !elapsed_below(now, self.updated_ms, STALE_AFTER_MS + 1) {
            return None;
        }
        assert(self.errors_showable(current_tool@, now as int));
        let ghost file_v: Option<Seq<char>> = opt_str_view(current_file);
        let mut lines: Vec<String> = Vec::new();
        match current_file {
            Some(file) => {
                let file_s = file.to_owned();
                let mut hist: Vec<String> = Vec::new();
                let mut i: usize = 0;
                while i < self.recent_files.len()
                    invariant
                        i <= self.recent_files@.len(),
                        file_s@ == file@,
                        hist@.len() <= 3,
                        views(hist@) == file_lines(first_n(entries_for(self.recent_files@.take(i as int), file@), 3), now as int),
                    decreases self.recent_files@.len() - i,
                {
                    let ghost ents = entries_for(self.recent_files@.take(i as int), file@);
                    let ghost pre = first_n(ents, 3);
                    let ghost f = self.recent_files@[i as int];
                    assert(self.recent_files@.take(i + 1).drop_last() =~= self.recent_files@.take(i as int));
                    assert(self.recent_files@.take(i + 1).last() == f);
                    proof {
                        lemma_first_n_push(ents, f, 3);
                        lemma_lines_push(pre, f, seq![], self.recent_errors@[0], now as int);
                    }
                    if self.recent_files[i].path == file_s && hist.len() < 3 {
                        let line = file_line_exec(&self.recent_files[i], now);
                        hist.push(line);
                    }
                    proof {
                        let post = first_n(entries_for(self.recent_files@.take(i + 1), file@), 3);
                        assert(views(hist@) =~= file_lines(post, now as int));
                    }
                    i = i + 1;
                }
                assert(self.recent_files@.take(self.recent_files@.len() as int) =~= self.recent_files@);
                if hist.len() > 0 {
                    let mut header = String::from_str("  file history for ");
                    header.append(file);
                    header.append(":");
                    lines.push(header);
                    let mut j: usize = 0;
                    let ghost base = views(lines@);
                    while j < hist.len()
                        invariant
                            j <= hist@.len(),
                            views(lines@) == base + views(hist@).take(j as int),
                        decreases hist@.len() - j,
                    {
                        let c = hist[j].clone();
                        let ghost before = lines@;
                        lines.push(c);
                        assert(lines@ == before.push(c));
                        assert(c@ == views(hist@)[j as int]);
                        assert(views(lines@) =~= views(before).push(c@));
                        assert(base + views(hist@).take(j + 1) =~= (base + views(hist@).take(j as int)).push(views(hist@)[j as int]));
                        assert(views(lines@) =~= base + views(hist@).take(j + 1));
                        j = j + 1;
                    }
                    assert(views(hist@).take(hist@.len() as int) =~= views(hist@));
                }
            },
            None => {},
        }
        assert(views(lines@) =~= self.history_lines(file_v, now as int));
        let ghost after_history = views(lines@);
        let tool_s = current_tool.to_owned();
        let mut errs: Vec<String> = Vec::new();
        let mut i: usize = 0;
        while i < self.recent_errors.len()
            invariant
                i <= self.recent_errors@.len(),
                tool_s@ == current_tool@,
                errs@.len() <= 2,
                self.errors_showable(current_tool@, now as int),
                views(errs@) == error_lines_of(first_n(errors_for(self.recent_errors@.take(i as int), current_tool@, now as int), 2), now as int),
            decreases self.recent_errors@.len() - i,
        {
            let ghost pre = errors_for(self.recent_errors@.take(i as int), current_tool@, now as int);
            let ghost eg = self.recent_errors@[i as int];
            assert(self.recent_errors@.take(i + 1).drop_last() =~= self.recent_errors@.take(i as int));
            assert(self.recent_errors@.take(i + 1).last() == eg);
            proof {
                lemma_first_n_push(pre, eg, 2);
                lemma_lines_push(seq![], self.recent_files@[0], first_n(pre, 2), eg, now as int);
            }
            let e = &self.recent_errors[i];
            if e.tool == tool_s && elapsed_below(now, e.timestamp_ms, ERROR_HINT_WINDOW_MS) && errs.len() < 2 {
                proof {
                    assert(views(errs@).len() == errs@.len());
                    assert(error_lines_of(first_n(pre, 2), now as int).len() == first_n(pre, 2).len());
                    assert(first_n(pre, 2).len() < 2);
                    assert(pre.len() < 2);
                    lemma_errors_prefix(self.recent_errors@, current_tool@, now as int, i + 1);
                    let post = errors_for(self.recent_errors@.take(i + 1), current_tool@, now as int);
                    assert(post[pre.len() as int] == *e);
                    assert(self.shown_errors(current_tool@, now as int)[pre.len() as int] == *e);
                }
                let line = error_line_exec(e, now);
                errs.push(line);
            }
            proof {
                let post = first_n(errors_for(self.recent_errors@.take(i + 1), current_tool@, now as int), 2);
                assert(views(errs@) =~= error_lines_of(post, now as int));
            }
            i = i + 1;
        }
        assert(self.recent_errors@.take(self.recent_errors@.len() as int) =~= self.recent_errors@);
        if errs.len() > 0 {
            let mut header = String::from_str("  recent ");
            header.append(current_tool);
            header.append(" errors:");
            lines.push(header);
            let mut j: usize = 0;
            let ghost base = views(lines@);
            while j < errs.len()
                invariant
                    j <= errs@.len(),
                    views(lines@) == base + views(errs@).take(j as int),
                decreases errs@.len() - j,
            {
                let c = errs[j].clone();
                let ghost before = lines@;
                lines.push(c);
                assert(lines@ == before.push(c));
                assert(c@ == views(errs@)[j as int]);
                        assert(views(lines@) =~= views(before).push(c@));
                        assert(base + views(errs@).take(j + 1) =~= (base + views(errs@).take(j as int)).push(views(errs@)[j as int]));
                assert(views(lines@) =~= base + views(errs@).take(j + 1));
                j = j + 1;
            }
            assert(views(errs@).take(errs@.len() as int) =~= views(errs@));
        }
        assert(views(lines@) =~= after_history + self.error_lines(current_tool@, now as int));
        let ghost after_errors = views(lines@);
        if self.sessions.len() > 0 {
            let prev = &self.sessions[0];
            let idle = !elapsed_below(now, prev.last_seen_ms, SESSION_IDLE_MS + 1);
            let recent = elapsed_below(now, prev.last_seen_ms, STALE_AFTER_MS);
            if idle && recent {
                lines.push(session_line_exec(prev, now));
            }
        }
        assert(views(lines@) =~= after_errors + self.session_lines(now as int));
        if lines.len() == 0 {
            None
        } else {
            Some(join_strings(&lines, "\n"))
        }
    }
}

impl WorkspaceState {
    /// Hints at `now` can be given: the workspace is empty or stale at
    /// `now`, or every error shown for `tool` at `now` can be cut for display.
    pub open spec fn hints_safe_at(self, tool: Seq<char>, now: int) -> bool {
        self.updated_ms == 0 || now - self.updated_ms > STALE_AFTER_MS || self.errors_showable(tool, now)
    }

    /// Context hints for a tool call at the current time. The time is read
    /// inside, so hints must be possible at whatever the clock shows: the
    /// errors that would be shown at any reading where the workspace is
    /// fresh can be cut for display.
    pub fn context_hints(&self, current_tool: &str, current_file: Option<&str>) -> (h: Option<String>)
        requires
            forall|now: i64| #[trigger] self.hints_safe_at(current_tool@, now as int),
        ensures
            exists|now: i64|
                opt_string_view(h) == #[trigger] self.spec_context_hints(
                    current_tool@,
                    opt_str_view(current_file),
                    now as int,
                ),
    {
        let now = now_millis();
        assert(self.hints_safe_at(current_tool@, now as int));
        self.context_hints_at(current_tool, current_file, now)
    }

    /// Tracks one tool call of `capability` in session `session_id` at the
    /// current time.
    pub fn track_session(&mut self, session_id: &str, capability: &str, is_error: bool)
        requires
            old(self).can_track(session_id@, is_error),
        ensures
            old(self).session_tracked(*final(self), session_id@, capability@, is_error, final(self).updated_ms),
    {
        let now = now_millis();
        self.track_session_at(session_id, capability, is_error, now);
    }
}

/// Longest error text, in bytes, that is kept.
pub const ERROR_KEPT_BYTES: usize = 300;

/// `s` cut after 300 bytes.
pub open spec fn error_kept(s: Seq<char>) -> Seq<char> {
    if encode_utf8(s).len() > ERROR_KEPT_BYTES {
        decode_utf8(encode_utf8(s).take(ERROR_KEPT_BYTES as int))
    } else {
        s
    }
}

/// Whether error text can be kept: one longer than 300 bytes has no
/// character straddling its 300th byte.
pub open spec fn error_cuttable(s: Seq<char>) -> bool {
    &&& encode_utf8(s).len() <= usize::MAX
    &&& encode_utf8(s).len() > ERROR_KEPT_BYTES ==> is_char_boundary(encode_utf8(s), ERROR_KEPT_BYTES as int)
}

fn keep_error(s: &str) -> (out: String)
    requires
        error_cuttable(s@),
    ensures
        out@ == error_kept(s@),
{
    if s.len() > ERROR_KEPT_BYTES {
        let (head, _) = s.split_at(ERROR_KEPT_BYTES);
        proof {
            assert(head.spec_bytes() == encode_utf8(head@));
            assert(encode_utf8(head@) =~= encode_utf8(s@).take(ERROR_KEPT_BYTES as int));
            vstd::utf8::encode_utf8_decode_utf8(head@);
        }
        head.to_owned()
    } else {
        s.to_owned()
    }
}

/// The file a tool works on: `file_path` for `Read`, `Write` and `Edit`,
/// `path` for `Grep` and `Glob`, none for other tools.
pub open spec fn spec_extract_file_path(
    tool: Seq<char>,
    file_path: Option<Seq<char>>,
    path: Option<Seq<char>>,
) -> Option<Seq<char>> {
    if tool == "Read"@ || tool == "Write"@ || tool == "Edit"@ {
        file_path
    } else if tool == "Grep"@ || tool == "Glob"@ {
        path
    } else {
        None
    }
}

/// The file a tool call works on, from the string fields `file_path` and
/// `path` of its input.
pub fn extract_file_path(tool_name: &str, file_path: Option<&str>, path: Option<&str>) -> (r: Option<String>)
    ensures
        opt_string_view(r) == spec_extract_file_path(tool_name@, opt_str_view(file_path), opt_str_view(path)),
{
    let chosen = if str_eq(tool_name, "Read") || str_eq(tool_name, "Write") || str_eq(tool_name, "Edit") {
        file_path
    } else if str_eq(tool_name, "Grep") || str_eq(tool_name, "Glob") {
        path
    } else {
        None
    };
    match chosen {
        Some(p) => Some(p.to_owned()),
        None => None,
    }
}

/// Text that reports a failure: it mentions `error`, `Error` or `failed`.
pub open spec fn reports_failure(s: Seq<char>) -> bool {
    has_infix(s, "error"@) || has_infix(s, "Error"@) || has_infix(s, "failed"@)
}

/// The error of a tool response: its `error` field when that is a string,
/// else the response itself when it is text reporting a failure; cut after
/// 300 bytes.
pub open spec fn spec_extract_error(error_field: Option<Seq<char>>, text: Option<Seq<char>>) -> Option<Seq<char>> {
    match error_field {
        Some(e) => Some(error_kept(e)),
        None => match text {
            Some(t) => if reports_failure(t) {
                Some(error_kept(t))
            } else {
                None
            },
            None => None,
        },
    }
}

/// The error snippet of a tool response, from its `error` string field and
/// its text when the response is a string.
pub fn extract_error(error_field: Option<&str>, text: Option<&str>) -> (r: Option<String>)
    requires
        match error_field {
            Some(e) => error_cuttable(e@),
            None => match text {
                Some(t) => reports_failure(t@) ==> error_cuttable(t@),
                None => true,
            },
        },
    ensures
        opt_string_view(r) == spec_extract_error(opt_str_view(error_field), opt_str_view(text)),
{
    match error_field {
        Some(e) => Some(keep_error(e)),
        None => match text {
            Some(t) => {
                if str_contains(t, "error") || str_contains(t, "Error") || str_contains(t, "failed") {
                    Some(keep_error(t))
                } else {
                    None
                }
            },
            None => None,
        },
    }
}

impl Default for WorkspaceState {
    fn default() -> (w: Self)
        ensures
            w.recent_files@.len() == 0,
            w.recent_errors@.len() == 0,
            w.sessions@.len() == 0,
            w.updated_ms == 0,
            w.capabilities_ok(),
    {
        WorkspaceState::new()
    }
}

/// Recording a file never lets the file history grow past its limit.
pub proof fn lemma_file_history_bounded(
    before: WorkspaceState,
    after: WorkspaceState,
    path: String,
    action: Seq<char>,
    context: String,
    outcome: Seq<char>,
    now: i64,
)
    requires
        before.recent_files@.len() <= MAX_RECENT_FILES,
        before.file_recorded(after, path, action, context, outcome, now),
    ensures
        after.recent_files@.len() <= MAX_RECENT_FILES,
        after.recent_files@.len() >= 1,
{
}

/// A session that is present has a first position.
pub proof fn lemma_first_session(w: WorkspaceState, id: Seq<char>, j: int)
    requires
        0 <= j < w.sessions@.len(),
        w.sessions@[j].session_id@ == id,
    ensures
        exists|i: int| #[trigger] w.is_session_at(id, i),
    decreases j,
{
    if exists|k: int| 0 <= k < j && (#[trigger] w.sessions@[k]).session_id@ == id {
        let k = choose|k: int| 0 <= k < j && (#[trigger] w.sessions@[k]).session_id@ == id;
        lemma_first_session(w, id, k);
    } else {
        assert(w.is_session_at(id, j));
    }
}

/// Tracking a session never lets the session history grow past its limit.
pub proof fn lemma_session_history_bounded(
    before: WorkspaceState,
    after: WorkspaceState,
    id: Seq<char>,
    capability: Seq<char>,
    is_error: bool,
    now: i64,
)
    requires
        before.sessions@.len() <= MAX_SESSIONS,
        before.session_tracked(after, id, capability, is_error, now),
    ensures
        after.sessions@.len() <= MAX_SESSIONS,
        after.sessions@.len() >= 1,
{
    if before.has_session(id) {
        let j = choose|j: int| 0 <= j < before.sessions@.len() && (#[trigger] before.sessions@[j]).session_id@ == id;
        lemma_first_session(before, id, j);
        let i = choose|i: int| #[trigger] before.is_session_at(id, i);
        assert(after.sessions@ == before.sessions@.update(i, after.sessions@[i]));
    }
}


/// Every error `errors_for` keeps is of `tool`, less than an hour old at
/// `now`, and one of `errors`; and it keeps one wherever there is such an
/// error.
proof fn lemma_errors_for(errors: Seq<RecentError>, tool: Seq<char>, now: int)
    ensures
        forall|k: int|
            0 <= k < errors_for(errors, tool, now).len() ==> {
                let e = #[trigger] errors_for(errors, tool, now)[k];
                &&& e.tool@ == tool
                &&& now - e.timestamp_ms < 3600000
                &&& errors.contains(e)
            },
        (exists|q: int| 0 <= q < errors.len() && (#[trigger] errors[q]).tool@ == tool && now - errors[q].timestamp_ms
            < 3600000) ==> errors_for(errors, tool, now).len() > 0,
    decreases errors.len(),
{
    if errors.len() > 0 {
        let rest = errors.drop_last();
        lemma_errors_for(rest, tool, now);
        let r = errors_for(rest, tool, now);
        assert forall|k: int| 0 <= k < r.len() implies errors.contains(#[trigger] r[k]) by {
            let q = choose|q: int| 0 <= q < rest.len() && rest[q] == r[k];
            assert(errors[q] == rest[q]);
        }
        assert(errors[errors.len() - 1] == errors.last());
        if exists|q: int| 0 <= q < errors.len() && (#[trigger] errors[q]).tool@ == tool && now - errors[q].timestamp_ms
            < 3600000 {
            let q = choose|q: int| 0 <= q < errors.len() && (#[trigger] errors[q]).tool@ == tool && now
                - errors[q].timestamp_ms < 3600000;
            if q < errors.len() - 1 {
                assert(rest[q] == errors[q]);
            }
        }
    }
}

impl WorkspaceState {
    /// The errors the hints show for `tool` at `now` are at most two, each of
    /// `tool`, less than an hour old and one of the recent errors; some error
    /// is shown wherever a recent error of `tool` is less than an hour old.
    pub proof fn lemma_shown_errors(self, tool: Seq<char>, now: int)
        ensures
            self.shown_errors(tool, now).len() <= 2,
            forall|k: int|
                0 <= k < self.shown_errors(tool, now).len() ==> {
                    let e = #[trigger] self.shown_errors(tool, now)[k];
                    &&& e.tool@ == tool
                    &&& now - e.timestamp_ms < 3600000
                    &&& self.recent_errors@.contains(e)
                },
            (exists|q: int|
                0 <= q < self.recent_errors@.len() && (#[trigger] self.recent_errors@[q]).tool@ == tool && now
                    - self.recent_errors@[q].timestamp_ms < 3600000) ==> self.shown_errors(tool, now).len() > 0,
    {
        let all = errors_for(self.recent_errors@, tool, now);
        lemma_errors_for(self.recent_errors@, tool, now);
        assert forall|k: int| 0 <= k < self.shown_errors(tool, now).len() implies #[trigger] self.shown_errors(
            tool,
            now,
        )[k] == all[k] by {}
    }

    /// Without a recent error of `tool` less than an hour old, the hints
    /// show no error lines.
    pub proof fn lemma_no_error_lines(self, tool: Seq<char>, now: int)
        requires
            forall|q: int|
                0 <= q < self.recent_errors@.len() ==> (#[trigger] self.recent_errors@[q]).tool@ != tool || now
                    - self.recent_errors@[q].timestamp_ms >= 3600000,
        ensures
            self.error_lines(tool, now) == Seq::<Seq<char>>::empty(),
    {
        self.lemma_shown_errors(tool, now);
        if self.shown_errors(tool, now).len() > 0 {
            let e = self.shown_errors(tool, now)[0];
            let q = choose|q: int| 0 <= q < self.recent_errors@.len() && self.recent_errors@[q] == e;
            assert(self.recent_errors@[q].tool@ != tool || now - self.recent_errors@[q].timestamp_ms >= 3600000);
        }
    }
}

/// The file of a tool call: the `file_path` field for `Read`, `Write` and
/// `Edit`, the `path` field for `Grep` and `Glob`, and none for any other
/// tool.
pub proof fn lemma_extract_file_path(tool: Seq<char>, file_path: Option<Seq<char>>, path: Option<Seq<char>>)
    ensures
        tool == "Read"@ || tool == "Write"@ || tool == "Edit"@ ==> spec_extract_file_path(tool, file_path, path)
            == file_path,
        tool == "Grep"@ || tool == "Glob"@ ==> spec_extract_file_path(tool, file_path, path) == path,
        tool != "Read"@ && tool != "Write"@ && tool != "Edit"@ && tool != "Grep"@ && tool != "Glob"@
            ==> spec_extract_file_path(tool, file_path, path) is None,
{
    reveal_strlit("Read");
    reveal_strlit("Write");
    reveal_strlit("Edit");
    reveal_strlit("Grep");
    reveal_strlit("Glob");
    assert("Read"@[0] != "Grep"@[0] && "Write"@.len() == 5 && "Grep"@.len() == 4);
    assert("Edit"@[0] != "Grep"@[0] && "Read"@[0] != "Glob"@[0] && "Edit"@[0] != "Glob"@[0]);
}

} // verus!
