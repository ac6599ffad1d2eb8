//! Derived learning views for a space.
//!
//! Learning is not stored as a new object: traces remain the fact source, and
//! this module compresses recent evidence into a sparse read surface. Traces
//! are grouped by capability, context hash and trial key; each group counts
//! the distinct sessions that succeeded or failed, with or without following
//! the prescribed method, and the groups are ranked into stable paths,
//! failure residue and regression candidates.

use vstd::prelude::*;

use crate::text::{
    byte_order, char_order, chars_of, compare_bytes, injective_rank, lemma_ranks_injective, compare_chars, concat_str, hex_string, lemma_lex_asymmetric,
    lemma_lex_irreflexive, lemma_lex_total, lemma_lex_transitive, lex_lt, spec_hex, trim_str, trimmed, Order,
    ascii_lowered, ascii_lowercase, contains_chars, decimal_string, has_infix, spec_decimal, views,
};
use crate::trace::{MethodCompliance, Outcome};

verus! {

/// Longest context, in characters, that is shown unshortened.
pub const CONTEXT_MAX_CHARS: usize = 140;

/// Number of characters kept when a context is shortened.
pub const CONTEXT_KEPT_CHARS: usize = 137;

/// What the learning view reads of a trace.
pub struct LearningTrace {
    pub id: [u8; 32],
    pub capability: String,
    pub context_hash: [u8; 16],
    pub context_text: Option<String>,
    pub session_id: Option<String>,
    pub device_identity: Option<String>,
    pub outcome: Outcome,
    pub method_compliance: Option<MethodCompliance>,
    pub trial_key: Option<String>,
    pub artifact_refs: Vec<String>,
    pub verification: Option<String>,
}

/// Local follow-up feedback of the last 24 hours.
pub struct SpaceFeedbackSummary {
    pub positive_24h: u32,
    pub negative_24h: u32,
}

pub open spec fn opt_view(o: Option<String>) -> Option<Seq<char>> {
    match o {
        Some(s) => Some(s@),
        None => None,
    }
}

/// The group a trace belongs to: capability, context hash and trial key.
pub type LearningKey = (Seq<char>, Seq<u8>, Option<Seq<char>>);

pub open spec fn key_of(t: LearningTrace) -> LearningKey {
    (t.capability@, t.context_hash@, opt_view(t.trial_key))
}

/// The session a trace counts for: its session id, else its device identity,
/// else the hex rendering of the first eight bytes of its id.
pub open spec fn session_key(t: LearningTrace) -> Seq<char> {
    match t.session_id {
        Some(s) => s@,
        None => match t.device_identity {
            Some(d) => d@,
            None => spec_hex(t.id@.take(8)),
        },
    }
}

/// The context shown for a group: the trimmed context text, or `fallback`
/// when there is none or it is blank; longer than 140 characters, it is cut
/// to 137 characters followed by `...`.
pub open spec fn spec_compact_context(context: Option<Seq<char>>, fallback: Seq<char>) -> Seq<char> {
    let raw = match context {
        Some(c) => if trimmed(c).len() > 0 {
            trimmed(c)
        } else {
            fallback
        },
        None => fallback,
    };
    if raw.len() <= 140 {
        raw
    } else {
        raw.take(137) + "..."@
    }
}

/// The context text of a group, shortened for display.
pub fn compact_context(context: Option<&str>, fallback: &str) -> (s: String)
    ensures
        s@ == spec_compact_context(
            match context {
                Some(c) => Some(c@),
                None => None,
            },
            fallback@,
        ),
{
    let raw: &str = match context {
        Some(c) => {
            let t = trim_str(c);
            if t.unicode_len() > 0 {
                t
            } else {
                fallback
            }
        },
        None => fallback,
    };
    if raw.unicode_len() <= CONTEXT_MAX_CHARS {
        raw.to_owned()
    } else {
        let head = raw.substring_char(0, CONTEXT_KEPT_CHARS);
        proof {
            reveal_strlit("...");
        }
        concat_str(head.to_owned(), "...")
    }
}

/// The session a trace counts for.
pub fn learning_session_key(t: &LearningTrace) -> (s: String)
    ensures
        s@ == session_key(*t),
{
    match &t.session_id {
        Some(s) => s.clone(),
        None => match &t.device_identity {
            Some(d) => d.clone(),
            None => {
                let head = vstd::slice::slice_subrange(t.id.as_slice(), 0, 8);
                hex_string(head)
            },
        },
    }
}

/// Whether two traces belong to the same group.
pub fn same_key(a: &LearningTrace, b: &LearningTrace) -> (r: bool)
    ensures
        r == (key_of(*a) == key_of(*b)),
{
    if a.capability != b.capability {
        return false;
    }
    if compare_bytes(a.context_hash.as_slice(), b.context_hash.as_slice()) != Order::Equal {
        return false;
    }
    match (&a.trial_key, &b.trial_key) {
        (Some(x), Some(y)) => *x == *y,
        (None, None) => true,
        _ => false,
    }
}

/// `firsts` lists, in increasing order, the first position of every group
/// among the traces `ts`.
pub open spec fn first_positions(ts: Seq<LearningTrace>, firsts: Seq<usize>) -> bool {
    &&& forall|a: int, b: int| 0 <= a < b < firsts.len() ==> firsts[a] < firsts[b]
    &&& forall|j: int| 0 <= j < firsts.len() ==> firsts[j] < ts.len()
    &&& forall|j: int, i: int|
        0 <= j < firsts.len() && 0 <= i < firsts[j] ==> key_of(#[trigger] ts[i]) != key_of(
            ts[#[trigger] firsts[j] as int],
        )
    &&& forall|i: int| 0 <= i < ts.len() ==> covered(ts, firsts, key_of(#[trigger] ts[i]))
}

/// Some listed position holds a trace of group `k`.
pub open spec fn covered(ts: Seq<LearningTrace>, firsts: Seq<usize>, k: LearningKey) -> bool {
    exists|j: int| #![trigger firsts[j]] 0 <= j < firsts.len() && key_of(ts[firsts[j] as int]) == k
}

proof fn lemma_first_positions_step(
    ts: Seq<LearningTrace>,
    i: usize,
    old_firsts: Seq<usize>,
    firsts: Seq<usize>,
    found: bool,
)
    requires
        0 <= i < ts.len(),
        first_positions(ts.take(i as int), old_firsts),
        found ==> covered(ts, old_firsts, key_of(ts[i as int])),
        found ==> firsts == old_firsts,
        !found ==> forall|q: int| 0 <= q < old_firsts.len() ==> key_of(ts[old_firsts[q] as int]) != key_of(ts[i as int]),
        !found ==> firsts == old_firsts.push(i),
    ensures
        first_positions(ts.take(i + 1), firsts),
{
    let pre = ts.take(i as int);
    let post = ts.take(i + 1);
    assert forall|q: int| 0 <= q < pre.len() implies post[q] == pre[q] && pre[q] == ts[q] by {}
    assert forall|j2: int| 0 <= j2 < old_firsts.len() implies old_firsts[j2] < i
        && pre[old_firsts[j2] as int] == ts[old_firsts[j2] as int] by {}
    assert forall|a: int, b: int| 0 <= a < b < firsts.len() implies firsts[a] < firsts[b] by {
        if b >= old_firsts.len() {
            assert(firsts[a] == old_firsts[a]);
            assert(firsts[b] == i);
        } else {
            assert(firsts[a] == old_firsts[a]);
            assert(firsts[b] == old_firsts[b]);
        }
    }
    assert forall|j2: int| 0 <= j2 < firsts.len() implies firsts[j2] < post.len() by {
        if j2 < old_firsts.len() {
            assert(firsts[j2] == old_firsts[j2]);
        }
    }
    assert forall|j2: int, q: int|
        0 <= j2 < firsts.len() && 0 <= q < firsts[j2] implies key_of(#[trigger] post[q]) != key_of(
        post[#[trigger] firsts[j2] as int]) by {
        if j2 < old_firsts.len() {
            assert(firsts[j2] == old_firsts[j2]);
            assert(key_of(pre[q]) != key_of(pre[old_firsts[j2] as int]));
        } else {
            assert(firsts[j2] == i);
            assert(post[q] == pre[q]);
            assert(post[i as int] == ts[i as int]);
            assert(covered(pre, old_firsts, key_of(pre[q])));
            let q2 = choose|q2: int| #![trigger old_firsts[q2]] 0 <= q2 < old_firsts.len() && key_of(pre[old_firsts[q2] as int]) == key_of(pre[q]);
            assert(pre[old_firsts[q2] as int] == ts[old_firsts[q2] as int]);
            assert(key_of(ts[old_firsts[q2] as int]) != key_of(ts[i as int]));
        }
    }
    assert forall|q: int| 0 <= q < post.len() implies covered(post, firsts, key_of(#[trigger] post[q])) by {
        if q < i {
            assert(covered(pre, old_firsts, key_of(pre[q])));
            let j2 = choose|j2: int| #![trigger old_firsts[j2]] 0 <= j2 < old_firsts.len() && key_of(pre[old_firsts[j2] as int]) == key_of(pre[q]);
            assert(firsts[j2] == old_firsts[j2]);
            assert(post[firsts[j2] as int] == pre[old_firsts[j2] as int]);
        } else if found {
            let j2 = choose|j2: int| #![trigger old_firsts[j2]] 0 <= j2 < old_firsts.len() && key_of(ts[old_firsts[j2] as int]) == key_of(ts[i as int]);
            assert(firsts[j2] == old_firsts[j2]);
            assert(post[firsts[j2] as int] == ts[old_firsts[j2] as int]);
        } else {
            let j2 = firsts.len() - 1;
            assert(firsts[j2] == i);
            assert(post[firsts[j2] as int] == ts[i as int]);
        }
    }
}

/// The first position of every group, in order.
pub fn group_firsts(ts: &[LearningTrace]) -> (firsts: Vec<usize>)
    ensures
        first_positions(ts@, firsts@),
{
    let mut firsts: Vec<usize> = Vec::new();
    let mut i: usize = 0;
    while i < ts.len()
        invariant
            i <= ts.len(),
            first_positions(ts@.take(i as int), firsts@),
        decreases ts.len() - i,
    {
        let mut j: usize = 0;
        let mut found = false;
        while j < firsts.len()
            invariant_except_break
                !found,
            invariant
                i < ts.len(),
                j <= firsts.len(),
                first_positions(ts@.take(i as int), firsts@),
                forall|q: int| 0 <= q < j ==> key_of(ts@[firsts@[q] as int]) != key_of(ts@[i as int]),
            ensures
                !found ==> forall|q: int| 0 <= q < firsts.len() ==> key_of(ts@[firsts@[q] as int]) != key_of(ts@[i as int]),
                found ==> covered(ts@, firsts@, key_of(ts@[i as int])),
            decreases firsts.len() - j,
        {
            if same_key(&ts[firsts[j]], &ts[i]) {
                found = true;
                assert(key_of(ts@[firsts@[j as int] as int]) == key_of(ts@[i as int]));
                break;
            }
            j = j + 1;
        }
        let ghost old_firsts = firsts@;
        if !found {
            firsts.push(i);
        }
        proof {
            lemma_first_positions_step(ts@, i, old_firsts, firsts@, found);
        }
        i = i + 1;
    }
    assert(ts@.take(ts.len() as int) =~= ts@);
    firsts
}

/// The kinds of session evidence a group counts.
#[derive(PartialEq, Eq, Structural, Clone, Copy)]
pub enum SessionKind {
    CompliantSuccess,
    NoncompliantSuccess,
    Failure,
    NoncompliantFailure,
}

/// A trace's method compliance; unreported counts as unknown.
pub open spec fn compliance(t: LearningTrace) -> MethodCompliance {
    match t.method_compliance {
        Some(c) => c,
        None => MethodCompliance::Unknown,
    }
}

/// A failure is a failed or timed-out interaction.
pub open spec fn is_failure(t: LearningTrace) -> bool {
    t.outcome == Outcome::Failed || t.outcome == Outcome::Timeout
}

/// Whether trace `t` is evidence of `kind`.
pub open spec fn of_kind(t: LearningTrace, kind: SessionKind) -> bool {
    match kind {
        SessionKind::CompliantSuccess => t.outcome == Outcome::Succeeded && compliance(t)
            == MethodCompliance::Compliant,
        SessionKind::NoncompliantSuccess => t.outcome == Outcome::Succeeded && compliance(t)
            == MethodCompliance::Noncompliant,
        SessionKind::Failure => is_failure(t),
        SessionKind::NoncompliantFailure => is_failure(t) && compliance(t)
            == MethodCompliance::Noncompliant,
    }
}

/// Some trace of group `k` is evidence of `kind` for session `s`.
pub open spec fn has_session(
    ts: Seq<LearningTrace>,
    k: LearningKey,
    kind: SessionKind,
    s: Seq<char>,
) -> bool {
    exists|i: int|
        0 <= i < ts.len() && key_of(#[trigger] ts[i]) == k && of_kind(ts[i], kind) && session_key(
            ts[i],
        ) == s
}

/// The distinct sessions for which group `k` holds evidence of `kind`.
pub open spec fn sessions(ts: Seq<LearningTrace>, k: LearningKey, kind: SessionKind) -> Set<Seq<char>> {
    Set::new(|s: Seq<char>| has_session(ts, k, kind, s))
}

/// Some trace of group `k` refers to artifact `a`.
pub open spec fn has_artifact(ts: Seq<LearningTrace>, k: LearningKey, a: Seq<char>) -> bool {
    exists|i: int, j: int|
        #![trigger ts[i].artifact_refs[j]]
        0 <= i < ts.len() && key_of(ts[i]) == k && 0 <= j < ts[i].artifact_refs.len()
            && ts[i].artifact_refs[j]@ == a
}

/// The distinct artifacts that the traces of group `k` refer to.
pub open spec fn artifacts(ts: Seq<LearningTrace>, k: LearningKey) -> Set<Seq<char>> {
    Set::new(|a: Seq<char>| has_artifact(ts, k, a))
}

/// The first verification that a trace of group `k` reports.
pub open spec fn first_verification(ts: Seq<LearningTrace>, k: LearningKey) -> Option<Seq<char>>
    decreases ts.len(),
{
    if ts.len() == 0 {
        None
    } else {
        let prev = first_verification(ts.drop_last(), k);
        if prev is Some {
            prev
        } else if key_of(ts.last()) == k {
            opt_view(ts.last().verification)
        } else {
            None
        }
    }
}

/// Appends `s` unless an equal string is already present.
pub fn push_unique(v: &mut Vec<String>, s: String)
    requires
        views(old(v)@).no_duplicates(),
    ensures
        views(final(v)@).no_duplicates(),
        views(final(v)@).to_set() == views(old(v)@).to_set().insert(s@),
        final(v)@.len() <= old(v)@.len() + 1,
{
    let mut j: usize = 0;
    while j < v.len()
        invariant
            j <= v.len(),
            views(v@).no_duplicates(),
            forall|q: int| 0 <= q < j ==> v@[q]@ != s@,
        decreases v.len() - j,
    {
        if v[j] == s {
            proof {
                assert(views(v@)[j as int] == s@);
                assert(views(v@).to_set().contains(s@));
                assert(views(v@).to_set().insert(s@) =~= views(v@).to_set());
            }
            return;
        }
        j = j + 1;
    }
    let ghost before = views(v@);
    v.push(s);
    proof {
        assert(views(v@) =~= before.push(s@));
        assert forall|q: int| 0 <= q < before.len() implies before[q] != s@ by {
            assert(before[q] == v@[q]@);
        }
        assert(views(v@).no_duplicates()) by {
            assert forall|a: int, b: int| 0 <= a < b < views(v@).len() implies views(v@)[a] != views(v@)[b] by {
                if b == before.len() {
                    assert(views(v@)[a] == before[a]);
                } else {
                    assert(views(v@)[a] == before[a]);
                    assert(views(v@)[b] == before[b]);
                }
            }
        }
        assert(views(v@).to_set() =~= before.to_set().insert(s@)) by {
            assert forall|x: Seq<char>| views(v@).to_set().contains(x) <==> before.to_set().insert(s@).contains(x) by {
                if views(v@).to_set().contains(x) {
                    let q = choose|q: int| 0 <= q < views(v@).len() && views(v@)[q] == x;
                    if q < before.len() {
                        assert(before[q] == x);
                    }
                }
                if before.to_set().contains(x) {
                    let q = choose|q: int| 0 <= q < before.len() && before[q] == x;
                    assert(views(v@)[q] == x);
                }
                if x == s@ {
                    assert(views(v@)[before.len() as int] == x);
                }
            }
        }
    }
}

/// Whether trace `t` is evidence of `kind`.
pub fn trace_of_kind(t: &LearningTrace, kind: SessionKind) -> (b: bool)
    ensures
        b == of_kind(*t, kind),
{
    let c = match t.method_compliance {
        Some(c) => c,
        None => MethodCompliance::Unknown,
    };
    let failed = t.outcome == Outcome::Failed || t.outcome == Outcome::Timeout;
    match kind {
        SessionKind::CompliantSuccess => t.outcome == Outcome::Succeeded && c
            == MethodCompliance::Compliant,
        SessionKind::NoncompliantSuccess => t.outcome == Outcome::Succeeded && c
            == MethodCompliance::Noncompliant,
        SessionKind::Failure => failed,
        SessionKind::NoncompliantFailure => failed && c == MethodCompliance::Noncompliant,
    }
}

proof fn lemma_sessions_step(ts: Seq<LearningTrace>, i: int, k: LearningKey, kind: SessionKind)
    requires
        0 <= i < ts.len(),
    ensures
        sessions(ts.take(i + 1), k, kind) == if key_of(ts[i]) == k && of_kind(ts[i], kind) {
            sessions(ts.take(i), k, kind).insert(session_key(ts[i]))
        } else {
            sessions(ts.take(i), k, kind)
        },
{
    let pre = ts.take(i);
    let post = ts.take(i + 1);
    let add = key_of(ts[i]) == k && of_kind(ts[i], kind);
    let expected = if add {
        sessions(pre, k, kind).insert(session_key(ts[i]))
    } else {
        sessions(pre, k, kind)
    };
    assert forall|x: Seq<char>| #[trigger] sessions(post, k, kind).contains(x) == expected.contains(x) by {
        if has_session(post, k, kind, x) {
            let q = choose|q: int|
                0 <= q < post.len() && key_of(#[trigger] post[q]) == k && of_kind(post[q], kind)
                    && session_key(post[q]) == x;
            if q < i {
                assert(post[q] == pre[q]);
                assert(has_session(pre, k, kind, x));
            } else {
                assert(post[q] == ts[i]);
            }
        }
        if has_session(pre, k, kind, x) {
            let q = choose|q: int|
                0 <= q < pre.len() && key_of(#[trigger] pre[q]) == k && of_kind(pre[q], kind)
                    && session_key(pre[q]) == x;
            assert(post[q] == pre[q]);
            assert(has_session(post, k, kind, x));
        }
        if add && x == session_key(ts[i]) {
            assert(post[i] == ts[i]);
            assert(has_session(post, k, kind, x));
        }
    }
    assert(sessions(post, k, kind) =~= expected);
}

/// The distinct sessions for which the group of `ts[rep]` holds evidence of
/// `kind`, each once.
pub fn collect_sessions(ts: &[LearningTrace], rep: usize, kind: SessionKind) -> (v: Vec<String>)
    requires
        rep < ts.len(),
    ensures
        views(v@).no_duplicates(),
        views(v@).to_set() == sessions(ts@, key_of(ts@[rep as int]), kind),
        v@.len() <= ts@.len(),
{
    let ghost k = key_of(ts@[rep as int]);
    let mut v: Vec<String> = Vec::new();
    let mut i: usize = 0;
    proof {
        assert(sessions(ts@.take(0), k, kind) =~= Set::empty());
        assert(views(v@).to_set() =~= Set::empty());
    }
    while i < ts.len()
        invariant
            rep < ts.len(),
            k == key_of(ts@[rep as int]),
            i <= ts.len(),
            v@.len() <= i,
            views(v@).no_duplicates(),
            views(v@).to_set() == sessions(ts@.take(i as int), k, kind),
        decreases ts.len() - i,
    {
        proof {
            lemma_sessions_step(ts@, i as int, k, kind);
        }
        if same_key(&ts[i], &ts[rep]) && trace_of_kind(&ts[i], kind) {
            push_unique(&mut v, learning_session_key(&ts[i]));
        }
        i = i + 1;
    }
    assert(ts@.take(ts.len() as int) =~= ts@);
    v
}

proof fn lemma_artifacts_step(ts: Seq<LearningTrace>, i: int, k: LearningKey)
    requires
        0 <= i < ts.len(),
    ensures
        key_of(ts[i]) != k ==> artifacts(ts.take(i + 1), k) == artifacts(ts.take(i), k),
        key_of(ts[i]) == k ==> artifacts(ts.take(i + 1), k) == artifacts(ts.take(i), k).union(
            views(ts[i].artifact_refs@).to_set(),
        ),
{
    let pre = ts.take(i);
    let post = ts.take(i + 1);
    let expected = if key_of(ts[i]) == k {
        artifacts(pre, k).union(views(ts[i].artifact_refs@).to_set())
    } else {
        artifacts(pre, k)
    };
    assert forall|x: Seq<char>| #[trigger] artifacts(post, k).contains(x) == expected.contains(x) by {
        if has_artifact(post, k, x) {
            let (q, j) = choose|q: int, j: int|
                #![trigger post[q].artifact_refs[j]]
                0 <= q < post.len() && key_of(post[q]) == k && 0 <= j < post[q].artifact_refs.len()
                    && post[q].artifact_refs[j]@ == x;
            if q < i {
                assert(post[q] == pre[q]);
                assert(pre[q].artifact_refs[j]@ == x);
                assert(has_artifact(pre, k, x));
            } else {
                assert(post[q] == ts[i]);
                assert(views(ts[i].artifact_refs@)[j] == x);
            }
        }
        if has_artifact(pre, k, x) {
            let (q, j) = choose|q: int, j: int|
                #![trigger pre[q].artifact_refs[j]]
                0 <= q < pre.len() && key_of(pre[q]) == k && 0 <= j < pre[q].artifact_refs.len()
                    && pre[q].artifact_refs[j]@ == x;
            assert(post[q] == pre[q]);
            assert(post[q].artifact_refs[j]@ == x);
            assert(has_artifact(post, k, x));
        }
        if key_of(ts[i]) == k && views(ts[i].artifact_refs@).to_set().contains(x) {
            let j = choose|j: int| 0 <= j < views(ts[i].artifact_refs@).len() && views(ts[i].artifact_refs@)[j] == x;
            assert(post[i] == ts[i]);
            assert(post[i].artifact_refs[j]@ == x);
            assert(has_artifact(post, k, x));
        }
    }
    assert(artifacts(post, k) =~= expected);
}

proof fn lemma_push_to_set<A>(s: Seq<A>, x: A)
    ensures
        s.push(x).to_set() == s.to_set().insert(x),
{
    assert forall|y: A| #[trigger] s.push(x).to_set().contains(y) == s.to_set().insert(x).contains(y) by {
        if s.push(x).to_set().contains(y) {
            let q = choose|q: int| 0 <= q < s.push(x).len() && s.push(x)[q] == y;
            if q < s.len() {
                assert(s[q] == y);
            }
        }
        if s.to_set().contains(y) {
            let q = choose|q: int| 0 <= q < s.len() && s[q] == y;
            assert(s.push(x)[q] == y);
        }
        if y == x {
            assert(s.push(x)[s.len() as int] == y);
        }
    }
    assert(s.push(x).to_set() =~= s.to_set().insert(x));
}

/// The distinct artifacts referred to by the group of `ts[rep]`, each once.
pub fn collect_artifacts(ts: &[LearningTrace], rep: usize) -> (v: Vec<String>)
    requires
        rep < ts.len(),
    ensures
        views(v@).no_duplicates(),
        views(v@).to_set() == artifacts(ts@, key_of(ts@[rep as int])),
{
    let ghost k = key_of(ts@[rep as int]);
    let mut v: Vec<String> = Vec::new();
    let mut i: usize = 0;
    proof {
        assert(artifacts(ts@.take(0), k) =~= Set::empty());
        assert(views(v@).to_set() =~= Set::empty());
    }
    while i < ts.len()
        invariant
            rep < ts.len(),
            k == key_of(ts@[rep as int]),
            i <= ts.len(),
            views(v@).no_duplicates(),
            views(v@).to_set() == artifacts(ts@.take(i as int), k),
        decreases ts.len() - i,
    {
        proof {
            lemma_artifacts_step(ts@, i as int, k);
        }
        if same_key(&ts[i], &ts[rep]) {
            let refs = &ts[i].artifact_refs;
            let ghost start = views(v@).to_set();
            let mut j: usize = 0;
            assert(views(refs@.take(0)).to_set() =~= Set::empty());
            assert(start.union(Set::empty()) =~= start);
            while j < refs.len()
                invariant
                    j <= refs.len(),
                    views(v@).no_duplicates(),
                    views(v@).to_set() == start.union(views(refs@.take(j as int)).to_set()),
                    i < ts.len(),
                    refs == &ts@[i as int].artifact_refs,
                decreases refs.len() - j,
            {
                push_unique(&mut v, refs[j].clone());
                proof {
                    assert(views(refs@.take(j + 1)) =~= views(refs@.take(j as int)).push(refs@[j as int]@));
                    lemma_push_to_set(views(refs@.take(j as int)), refs@[j as int]@);
                    assert(views(v@).to_set() =~= start.union(views(refs@.take(j + 1)).to_set()));
                }
                j = j + 1;
            }
            assert(refs@.take(refs.len() as int) =~= refs@);
        }
        i = i + 1;
    }
    assert(ts@.take(ts.len() as int) =~= ts@);
    v
}

/// The order of optional strings: absent first, then lexicographic.
pub open spec fn opt_lt(a: Option<Seq<char>>, b: Option<Seq<char>>) -> bool {
    match (a, b) {
        (None, Some(_)) => true,
        (Some(x), Some(y)) => lex_lt(x, y, char_order()),
        _ => false,
    }
}

/// The order of group keys: by capability, then context hash, then trial key.
pub open spec fn key_lt(a: LearningKey, b: LearningKey) -> bool {
    ||| lex_lt(a.0, b.0, char_order())
    ||| a.0 == b.0 && lex_lt(a.1, b.1, byte_order())
    ||| a.0 == b.0 && a.1 == b.1 && opt_lt(a.2, b.2)
}

/// Group keys are strictly and totally ordered.
pub proof fn lemma_key_order(a: LearningKey, b: LearningKey, c: LearningKey)
    ensures
        !key_lt(a, a),
        key_lt(a, b) ==> !key_lt(b, a),
        key_lt(a, b) && key_lt(b, c) ==> key_lt(a, c),
        a == b || key_lt(a, b) || key_lt(b, a),
{
    lemma_ranks_injective();
    let co = char_order();
    let bo = byte_order();
    lemma_lex_irreflexive(a.0, co);
    lemma_lex_irreflexive(a.1, bo);
    if let Some(x) = a.2 {
        lemma_lex_irreflexive(x, co);
    }
    if lex_lt(a.0, b.0, co) {
        lemma_lex_asymmetric(a.0, b.0, co);
    }
    if lex_lt(a.1, b.1, bo) {
        lemma_lex_asymmetric(a.1, b.1, bo);
    }
    if let (Some(x), Some(y)) = (a.2, b.2) {
        if lex_lt(x, y, co) {
            lemma_lex_asymmetric(x, y, co);
        }
        lemma_lex_total(x, y, co);
    }
    lemma_lex_total(a.0, b.0, co);
    lemma_lex_total(a.1, b.1, bo);
    if key_lt(a, b) && key_lt(b, c) {
        if lex_lt(a.0, b.0, co) && lex_lt(b.0, c.0, co) {
            lemma_lex_transitive(a.0, b.0, c.0, co);
        }
        if lex_lt(a.1, b.1, bo) && lex_lt(b.1, c.1, bo) {
            lemma_lex_transitive(a.1, b.1, c.1, bo);
        }
        if let (Some(x), Some(y), Some(z)) = (a.2, b.2, c.2) {
            if lex_lt(x, y, co) && lex_lt(y, z, co) {
                lemma_lex_transitive(x, y, z, co);
            }
        }
    }
}

/// Whether the group of `a` comes before the group of `b`.
pub fn key_less(a: &LearningTrace, b: &LearningTrace) -> (r: bool)
    ensures
        r == key_lt(key_of(*a), key_of(*b)),
{
    let ca = chars_of(a.capability.as_str());
    let cb = chars_of(b.capability.as_str());
    match compare_chars(ca.as_slice(), cb.as_slice()) {
        Order::Less => {
            return true;
        },
        Order::Greater => {
            return false;
        },
        Order::Equal => {},
    }
    match compare_bytes(a.context_hash.as_slice(), b.context_hash.as_slice()) {
        Order::Less => {
            proof { lemma_lex_irreflexive(ca@, char_order()); }
            return true;
        },
        Order::Greater => {
            proof {
                lemma_ranks_injective();
                lemma_lex_irreflexive(ca@, char_order());
                lemma_lex_total(a.context_hash@, b.context_hash@, byte_order());
            }
            return false;
        },
        Order::Equal => {},
    }
    proof { lemma_lex_irreflexive(ca@, char_order()); lemma_lex_irreflexive(a.context_hash@, byte_order()); }
    match (&a.trial_key, &b.trial_key) {
        (None, Some(_)) => true,
        (Some(x), Some(y)) => {
            let cx = chars_of(x.as_str());
            let cy = chars_of(y.as_str());
            proof { lemma_lex_irreflexive(cx@, char_order()); }
            compare_chars(cx.as_slice(), cy.as_slice()) == Order::Less
        },
        _ => false,
    }
}

/// The number of distinct sessions of `kind` in group `k`, as a `u32`.
pub open spec fn count_of(ts: Seq<LearningTrace>, k: LearningKey, kind: SessionKind) -> u32 {
    sessions(ts, k, kind).len() as u32
}

/// Sessions that went against the method, successful or not.
pub open spec fn conflicts_of(ts: Seq<LearningTrace>, k: LearningKey) -> u32 {
    (sessions(ts, k, SessionKind::NoncompliantSuccess).len() + sessions(
        ts,
        k,
        SessionKind::NoncompliantFailure,
    ).len()) as u32
}

/// The aggregate of one group.
pub struct GroupStats {
    /// The first position of the group among the traces.
    pub rep: usize,
    pub compliant_success: u32,
    pub noncompliant_success: u32,
    pub failed: u32,
    pub method_conflicts: u32,
    /// The distinct artifacts, each once.
    pub artifact_refs: Vec<String>,
    pub verification: Option<String>,
}

/// `g` holds the aggregate of the group of `ts[g.rep]`.
pub open spec fn stats_ok(ts: Seq<LearningTrace>, g: GroupStats) -> bool {
    let k = key_of(ts[g.rep as int]);
    &&& g.rep < ts.len()
    &&& g.compliant_success == count_of(ts, k, SessionKind::CompliantSuccess)
    &&& g.noncompliant_success == count_of(ts, k, SessionKind::NoncompliantSuccess)
    &&& g.failed == count_of(ts, k, SessionKind::Failure)
    &&& g.method_conflicts == conflicts_of(ts, k)
    &&& views(g.artifact_refs@).no_duplicates()
    &&& views(g.artifact_refs@).to_set() == artifacts(ts, k)
    &&& opt_view(g.verification) == first_verification(ts, k)
}

/// The first verification reported by the group of `ts[rep]`.
pub fn group_verification(ts: &[LearningTrace], rep: usize) -> (v: Option<String>)
    requires
        rep < ts.len(),
    ensures
        opt_view(v) == first_verification(ts@, key_of(ts@[rep as int])),
{
    let ghost k = key_of(ts@[rep as int]);
    let mut found: Option<String> = None;
    let mut i: usize = 0;
    while i < ts.len()
        invariant
            rep < ts.len(),
            k == key_of(ts@[rep as int]),
            i <= ts.len(),
            opt_view(found) == first_verification(ts@.take(i as int), k),
        decreases ts.len() - i,
    {
        assert(ts@.take(i + 1).drop_last() =~= ts@.take(i as int));
        if found.is_none() && same_key(&ts[i], &ts[rep]) {
            found = ts[i].verification.clone();
        }
        i = i + 1;
    }
    assert(ts@.take(ts.len() as int) =~= ts@);
    found
}

proof fn lemma_count(v: Seq<String>)
    requires
        views(v).no_duplicates(),
    ensures
        views(v).to_set().len() == v.len(),
{
    views(v).unique_seq_to_set();
}

/// The aggregate of the group of `ts[rep]`.
pub fn group_stats(ts: &[LearningTrace], rep: usize) -> (g: GroupStats)
    requires
        rep < ts.len(),
    ensures
        g.rep == rep,
        stats_ok(ts@, g),
{
    let cs = collect_sessions(ts, rep, SessionKind::CompliantSuccess);
    let ns = collect_sessions(ts, rep, SessionKind::NoncompliantSuccess);
    let fs = collect_sessions(ts, rep, SessionKind::Failure);
    let nf = collect_sessions(ts, rep, SessionKind::NoncompliantFailure);
    proof {
        lemma_count(cs@);
        lemma_count(ns@);
        lemma_count(fs@);
        lemma_count(nf@);
    }
    let artifact_refs = collect_artifacts(ts, rep);
    let verification = group_verification(ts, rep);
    GroupStats {
        rep,
        compliant_success: cs.len() as u32,
        noncompliant_success: ns.len() as u32,
        failed: fs.len() as u32,
        method_conflicts: ((ns.len() as u128) + (nf.len() as u128)) as u32,
        artifact_refs,
        verification,
    }
}

/// The three ranked lists of the learning view.
#[derive(PartialEq, Eq, Structural, Clone, Copy)]
pub enum Ranking {
    StablePath,
    FailureResidue,
    RegressionCandidate,
}

/// Whether group `k` belongs in the list `r`.
pub open spec fn qualifies(ts: Seq<LearningTrace>, k: LearningKey, r: Ranking) -> bool {
    let cs = count_of(ts, k, SessionKind::CompliantSuccess);
    let ns = count_of(ts, k, SessionKind::NoncompliantSuccess);
    let failed = count_of(ts, k, SessionKind::Failure);
    match r {
        Ranking::StablePath => cs >= 3 && ns == 0 && failed == 0,
        Ranking::FailureResidue => failed >= 2 || conflicts_of(ts, k) > 0,
        Ranking::RegressionCandidate => failed >= 2 && artifacts(ts, k).len() > 0,
    }
}

/// Whether group `a` is listed before group `b` in the list `r`: stable
/// paths by compliant successes, failure residue by failures and then method
/// conflicts, regression candidates by failures, all descending; ties go by
/// the order of group keys.
pub open spec fn ranks_before(ts: Seq<LearningTrace>, a: LearningKey, b: LearningKey, r: Ranking) -> bool {
    let fa = count_of(ts, a, SessionKind::Failure);
    let fb = count_of(ts, b, SessionKind::Failure);
    match r {
        Ranking::StablePath => {
            let ca = count_of(ts, a, SessionKind::CompliantSuccess);
            let cb = count_of(ts, b, SessionKind::CompliantSuccess);
            ca > cb || (ca == cb && key_lt(a, b))
        },
        Ranking::FailureResidue => {
            let ma = conflicts_of(ts, a);
            let mb = conflicts_of(ts, b);
            fa > fb || (fa == fb && (ma > mb || (ma == mb && key_lt(a, b))))
        },
        Ranking::RegressionCandidate => fa > fb || (fa == fb && key_lt(a, b)),
    }
}

/// Each list's order is strict and total on distinct groups.
pub proof fn lemma_rank_order(ts: Seq<LearningTrace>, a: LearningKey, b: LearningKey, c: LearningKey, r: Ranking)
    ensures
        !ranks_before(ts, a, a, r),
        ranks_before(ts, a, b, r) ==> !ranks_before(ts, b, a, r),
        ranks_before(ts, a, b, r) && ranks_before(ts, b, c, r) ==> ranks_before(ts, a, c, r),
        a == b || ranks_before(ts, a, b, r) || ranks_before(ts, b, a, r),
{
    lemma_key_order(a, b, c);
    lemma_key_order(b, a, c);
}

/// A regression candidate is always failure residue as well.
pub proof fn lemma_regression_is_residue(ts: Seq<LearningTrace>, k: LearningKey)
    ensures
        qualifies(ts, k, Ranking::RegressionCandidate) ==> qualifies(ts, k, Ranking::FailureResidue),
{
}

/// Every session is the session of some trace of its group.
pub open spec fn all_sessions(ts: Seq<LearningTrace>) -> Seq<Seq<char>> {
    ts.map_values(|t: LearningTrace| session_key(t))
}

/// A group has no more sessions of a kind than there are traces.
pub proof fn lemma_sessions_bounded(ts: Seq<LearningTrace>, k: LearningKey, kind: SessionKind)
    ensures
        sessions(ts, k, kind).finite(),
        sessions(ts, k, kind).len() <= ts.len(),
{
    broadcast use vstd::seq_lib::seq_to_set_is_finite;
    let all = all_sessions(ts);
    assert forall|x: Seq<char>| #[trigger] sessions(ts, k, kind).contains(x) implies all.to_set().contains(x) by {
        let q = choose|q: int|
            0 <= q < ts.len() && key_of(#[trigger] ts[q]) == k && of_kind(ts[q], kind) && session_key(ts[q]) == x;
        assert(all[q] == x);
    }
    all.lemma_cardinality_of_set();
    vstd::set_lib::lemma_len_subset(sessions(ts, k, kind), all.to_set());
}

/// A stable path is never failure residue, where the traces are few enough
/// for the session counts to fit a `u32`.
pub proof fn lemma_stable_not_residue(ts: Seq<LearningTrace>, k: LearningKey)
    requires
        ts.len() <= u32::MAX,
    ensures
        qualifies(ts, k, Ranking::StablePath) ==> !qualifies(ts, k, Ranking::FailureResidue),
{
    lemma_sessions_bounded(ts, k, SessionKind::Failure);
    lemma_sessions_bounded(ts, k, SessionKind::NoncompliantSuccess);
    lemma_sessions_bounded(ts, k, SessionKind::NoncompliantFailure);
    let f = sessions(ts, k, SessionKind::Failure);
    let nf = sessions(ts, k, SessionKind::NoncompliantFailure);
    assert forall|x: Seq<char>| #[trigger] nf.contains(x) implies f.contains(x) by {
        let q = choose|q: int|
            0 <= q < ts.len() && key_of(#[trigger] ts[q]) == k && of_kind(ts[q], SessionKind::NoncompliantFailure)
                && session_key(ts[q]) == x;
        assert(has_session(ts, k, SessionKind::Failure, x));
    }
    vstd::set_lib::lemma_len_subset(nf, f);
}

/// Some trace belongs to group `k`.
pub open spec fn is_group(ts: Seq<LearningTrace>, k: LearningKey) -> bool {
    exists|i: int| 0 <= i < ts.len() && key_of(#[trigger] ts[i]) == k
}

/// `out` lists, in rank order, the first `limit` groups of list `r`, or all
/// of them when there are fewer.
pub open spec fn top_ranked(ts: Seq<LearningTrace>, out: Seq<LearningKey>, r: Ranking, limit: int) -> bool {
    &&& out.len() <= limit
    &&& forall|i: int, j: int| 0 <= i < j < out.len() ==> ranks_before(ts, out[i], out[j], r)
    &&& forall|i: int| 0 <= i < out.len() ==> is_group(ts, #[trigger] out[i]) && qualifies(ts, out[i], r)
    &&& forall|k: LearningKey|
        is_group(ts, k) && qualifies(ts, k, r) && !out.contains(k) ==> out.len() == limit && forall|
            i: int,
        | 0 <= i < out.len() ==> ranks_before(ts, #[trigger] out[i], k, r)
}

/// The key of the group that `g` aggregates.
pub open spec fn stats_key(ts: Seq<LearningTrace>, g: GroupStats) -> LearningKey {
    key_of(ts[g.rep as int])
}

/// Some aggregate in `stats` belongs to group `k`.
pub open spec fn in_table(ts: Seq<LearningTrace>, stats: Seq<GroupStats>, k: LearningKey) -> bool {
    exists|j: int| 0 <= j < stats.len() && stats_key(ts, #[trigger] stats[j]) == k
}

/// Position `i` holds the first trace of its group.
pub open spec fn is_first_pos(ts: Seq<LearningTrace>, i: int) -> bool {
    &&& 0 <= i < ts.len()
    &&& forall|j: int| 0 <= j < i ==> key_of(#[trigger] ts[j]) != key_of(ts[i])
}

/// `stats` holds one correct aggregate for every group, each group once.
pub open spec fn table_ok(ts: Seq<LearningTrace>, stats: Seq<GroupStats>) -> bool {
    &&& forall|j: int| 0 <= j < stats.len() ==> stats_ok(ts, #[trigger] stats[j])
    &&& forall|j: int| 0 <= j < stats.len() ==> is_first_pos(ts, #[trigger] stats[j].rep as int)
    &&& forall|a: int, b: int|
        0 <= a < b < stats.len() ==> stats_key(ts, #[trigger] stats[a]) != stats_key(ts, #[trigger] stats[b])
    &&& forall|i: int| 0 <= i < ts.len() ==> in_table(ts, stats, key_of(#[trigger] ts[i]))
}

/// One aggregate per group, in order of first appearance.
pub fn group_table(ts: &[LearningTrace]) -> (stats: Vec<GroupStats>)
    ensures
        table_ok(ts@, stats@),
{
    let firsts = group_firsts(ts);
    let mut stats: Vec<GroupStats> = Vec::new();
    let mut j: usize = 0;
    while j < firsts.len()
        invariant
            first_positions(ts@, firsts@),
            j <= firsts.len(),
            stats@.len() == j,
            forall|q: int| 0 <= q < j ==> stats_ok(ts@, #[trigger] stats@[q]) && stats@[q].rep == firsts@[q],
        decreases firsts.len() - j,
    {
        let g = group_stats(ts, firsts[j]);
        stats.push(g);
        j = j + 1;
    }
    proof {
        assert forall|q: int| 0 <= q < stats@.len() implies is_first_pos(ts@, #[trigger] stats@[q].rep as int) by {
            assert(stats@[q].rep == firsts@[q]);
            assert forall|i: int| 0 <= i < firsts@[q] implies key_of(#[trigger] ts@[i]) != key_of(ts@[firsts@[q] as int]) by {}
        }
        assert forall|a: int, b: int| 0 <= a < b < stats@.len() implies stats_key(ts@, #[trigger] stats@[a])
            != stats_key(ts@, #[trigger] stats@[b]) by {
            assert(firsts@[a] < firsts@[b]);
        }
        assert forall|i: int| 0 <= i < ts@.len() implies in_table(ts@, stats@, key_of(#[trigger] ts@[i])) by {
            assert(covered(ts@, firsts@, key_of(ts@[i])));
            let j = choose|j: int| #![trigger firsts@[j]] 0 <= j < firsts@.len() && key_of(ts@[firsts@[j] as int]) == key_of(ts@[i]);
            assert(stats_key(ts@, stats@[j]) == key_of(ts@[i]));
        }
    }
    stats
}

/// Whether the group of `g` belongs in list `r`.
pub fn qualifies_exec(ts: &[LearningTrace], g: &GroupStats, r: Ranking) -> (b: bool)
    requires
        stats_ok(ts@, *g),
    ensures
        b == qualifies(ts@, stats_key(ts@, *g), r),
{
    proof {
        vstd::set_lib::lemma_set_empty_equivalency_len(artifacts(ts@, stats_key(ts@, *g)));
        views(g.artifact_refs@).unique_seq_to_set();
    }
    match r {
        Ranking::StablePath => g.compliant_success >= 3 && g.noncompliant_success == 0 && g.failed == 0,
        Ranking::FailureResidue => g.failed >= 2 || g.method_conflicts > 0,
        Ranking::RegressionCandidate => g.failed >= 2 && g.artifact_refs.len() > 0,
    }
}

/// Whether the group of `a` is listed before the group of `b` in list `r`.
pub fn rank_before(ts: &[LearningTrace], a: &GroupStats, b: &GroupStats, r: Ranking) -> (res: bool)
    requires
        stats_ok(ts@, *a),
        stats_ok(ts@, *b),
    ensures
        res == ranks_before(ts@, stats_key(ts@, *a), stats_key(ts@, *b), r),
{
    let primary_a = match r {
        Ranking::StablePath => a.compliant_success,
        _ => a.failed,
    };
    let primary_b = match r {
        Ranking::StablePath => b.compliant_success,
        _ => b.failed,
    };
    if primary_a != primary_b {
        return primary_a > primary_b;
    }
    if r == Ranking::FailureResidue && a.method_conflicts != b.method_conflicts {
        return a.method_conflicts > b.method_conflicts;
    }
    key_less(&ts[a.rep], &ts[b.rep])
}

/// The keys of the aggregates at positions `idx`.
pub open spec fn keys_at(ts: Seq<LearningTrace>, stats: Seq<GroupStats>, idx: Seq<usize>) -> Seq<LearningKey> {
    idx.map_values(|j: usize| stats_key(ts, stats[j as int]))
}

/// The invariant of the selection in [`select_top`].
pub open spec fn selection_inv(
    ts: Seq<LearningTrace>,
    stats: Seq<GroupStats>,
    r: Ranking,
    cand: Seq<usize>,
    out: Seq<usize>,
) -> bool {
    &&& forall|p: int| 0 <= p < cand.len() ==> #[trigger] cand[p] < stats.len()
    &&& forall|p: int| 0 <= p < out.len() ==> #[trigger] out[p] < stats.len()
    &&& forall|p: int, q: int| 0 <= p < q < cand.len() ==> cand[p] != cand[q]
    &&& forall|p: int, q: int| 0 <= p < cand.len() && 0 <= q < out.len() ==> cand[p] != out[q]
    &&& forall|p: int| 0 <= p < cand.len() ==> qualifies(ts, stats_key(ts, stats[#[trigger] cand[p] as int]), r)
    &&& forall|p: int| 0 <= p < out.len() ==> qualifies(ts, stats_key(ts, stats[#[trigger] out[p] as int]), r)
    &&& forall|p: int, q: int|
        0 <= p < q < out.len() ==> ranks_before(
            ts,
            stats_key(ts, stats[out[p] as int]),
            stats_key(ts, stats[out[q] as int]),
            r,
        )
    &&& forall|p: int, q: int|
        0 <= p < out.len() && 0 <= q < cand.len() ==> ranks_before(
            ts,
            stats_key(ts, stats[out[p] as int]),
            stats_key(ts, stats[cand[q] as int]),
            r,
        )
    &&& forall|j: int|
        0 <= j < stats.len() && qualifies(ts, stats_key(ts, #[trigger] stats[j]), r) ==> cand.contains(
            j as usize,
        ) || out.contains(j as usize)
}

proof fn lemma_selection_step(
    ts: Seq<LearningTrace>,
    stats: Seq<GroupStats>,
    r: Ranking,
    cand: Seq<usize>,
    out: Seq<usize>,
    m: int,
)
    requires
        selection_inv(ts, stats, r, cand, out),
        0 <= m < cand.len(),
        forall|q: int|
            0 <= q < cand.len() && q != m ==> ranks_before(
                ts,
                stats_key(ts, stats[cand[m] as int]),
                stats_key(ts, stats[cand[q] as int]),
                r,
            ),
    ensures
        selection_inv(ts, stats, r, cand.remove(m), out.push(cand[m])),
{
    let c2 = cand.remove(m);
    let o2 = out.push(cand[m]);
    assert forall|q: int| 0 <= q < c2.len() implies c2[q] == cand[if q < m { q } else { q + 1 }] by {}
    assert forall|p: int, q: int| 0 <= p < c2.len() && 0 <= q < o2.len() implies c2[p] != o2[q] by {
        let pp = if p < m { p } else { p + 1 };
        if q == out.len() {
            assert(cand[pp] != cand[m]);
        }
    }
    assert forall|p: int, q: int| 0 <= p < q < o2.len() implies ranks_before(
        ts,
        stats_key(ts, stats[o2[p] as int]),
        stats_key(ts, stats[o2[q] as int]),
        r,
    ) by {
        if q == out.len() {
            assert(o2[q] == cand[m]);
        }
    }
    assert forall|p: int, q: int| 0 <= p < o2.len() && 0 <= q < c2.len() implies ranks_before(
        ts,
        stats_key(ts, stats[o2[p] as int]),
        stats_key(ts, stats[c2[q] as int]),
        r,
    ) by {
        let qq = if q < m { q } else { q + 1 };
        assert(c2[q] == cand[qq]);
        if p < out.len() {
            assert(o2[p] == out[p]);
        } else {
            assert(o2[p] == cand[m]);
        }
    }
    assert forall|j: int|
        0 <= j < stats.len() && qualifies(ts, stats_key(ts, #[trigger] stats[j]), r) implies c2.contains(
            j as usize,
        ) || o2.contains(j as usize) by {
        if cand.contains(j as usize) {
            let p = choose|p: int| 0 <= p < cand.len() && cand[p] == j as usize;
            if p == m {
                assert(o2[out.len() as int] == j as usize);
            } else if p < m {
                assert(c2[p] == j as usize);
            } else {
                assert(c2[p - 1] == j as usize);
            }
        } else {
            let p = choose|p: int| 0 <= p < out.len() && out[p] == j as usize;
            assert(o2[p] == j as usize);
        }
    }
    assert forall|p: int| 0 <= p < o2.len() implies qualifies(ts, stats_key(ts, stats[#[trigger] o2[p] as int]), r) by {
        if p == out.len() {
            assert(o2[p] == cand[m]);
        }
    }
    assert forall|p: int, q: int| 0 <= p < q < c2.len() implies c2[p] != c2[q] by {
        let pp = if p < m { p } else { p + 1 };
        let qq = if q < m { q } else { q + 1 };
        assert(cand[pp] != cand[qq]);
    }
}

proof fn lemma_selection_done(
    ts: Seq<LearningTrace>,
    stats: Seq<GroupStats>,
    r: Ranking,
    cand: Seq<usize>,
    out: Seq<usize>,
    limit: int,
)
    requires
        table_ok(ts, stats),
        stats.len() <= usize::MAX,
        selection_inv(ts, stats, r, cand, out),
        out.len() <= limit,
        out.len() == limit || cand.len() == 0,
    ensures
        top_ranked(ts, keys_at(ts, stats, out), r, limit),
{
    let ks = keys_at(ts, stats, out);
    assert forall|i: int| 0 <= i < ks.len() implies is_group(ts, #[trigger] ks[i]) && qualifies(ts, ks[i], r) by {
        let g = stats[out[i] as int];
        assert(stats_ok(ts, g));
        assert(key_of(ts[g.rep as int]) == ks[i]);
    }
    assert forall|k: LearningKey|
        is_group(ts, k) && qualifies(ts, k, r) && !ks.contains(k) implies ks.len() == limit && forall|
            i: int,
        | 0 <= i < ks.len() ==> ranks_before(ts, #[trigger] ks[i], k, r) by {
        let t = choose|t: int| 0 <= t < ts.len() && key_of(#[trigger] ts[t]) == k;
        assert(in_table(ts, stats, key_of(ts[t])));
        let j = choose|j: int| 0 <= j < stats.len() && stats_key(ts, #[trigger] stats[j]) == key_of(ts[t]);
        assert(j as usize as int == j);
        assert(qualifies(ts, stats_key(ts, stats[j]), r));
        if out.contains(j as usize) {
            let p = choose|p: int| 0 <= p < out.len() && out[p] == j as usize;
            assert(ks[p] == stats_key(ts, stats[out[p] as int]));
            assert(ks[p] == k);
        }
        assert(cand.contains(j as usize));
        let q = choose|q: int| 0 <= q < cand.len() && cand[q] == j as usize;
        assert(stats_key(ts, stats[cand[q] as int]) == k);
        assert forall|i: int| 0 <= i < ks.len() implies ranks_before(ts, #[trigger] ks[i], k, r) by {
            assert(ks[i] == stats_key(ts, stats[out[i] as int]));
            assert(ranks_before(ts, stats_key(ts, stats[out[i] as int]), stats_key(ts, stats[cand[q] as int]), r));
        }
    }
}

/// Positions, in rank order, of the first `limit` aggregates that belong in
/// list `r`.
pub fn select_top(ts: &[LearningTrace], stats: &Vec<GroupStats>, r: Ranking, limit: usize) -> (out: Vec<usize>)
    requires
        table_ok(ts@, stats@),
    ensures
        forall|p: int| 0 <= p < out@.len() ==> #[trigger] out@[p] < stats@.len(),
        top_ranked(ts@, keys_at(ts@, stats@, out@), r, limit as int),
{
    let mut cand: Vec<usize> = Vec::new();
    let mut j: usize = 0;
    while j < stats.len()
        invariant
            table_ok(ts@, stats@),
            j <= stats.len(),
            forall|p: int| 0 <= p < cand.len() ==> #[trigger] cand@[p] < j,
            forall|p: int, q: int| 0 <= p < q < cand.len() ==> cand@[p] < cand@[q],
            forall|p: int| 0 <= p < cand.len() ==> qualifies(ts@, stats_key(ts@, stats@[#[trigger] cand@[p] as int]), r),
            forall|q: int|
                0 <= q < j && qualifies(ts@, stats_key(ts@, #[trigger] stats@[q]), r) ==> cand@.contains(q as usize),
        decreases stats.len() - j,
    {
        if qualifies_exec(ts, &stats[j], r) {
            let ghost before = cand@;
            cand.push(j);
            proof {
                assert forall|q: int|
                    0 <= q < j + 1 && qualifies(ts@, stats_key(ts@, #[trigger] stats@[q]), r) implies cand@.contains(q as usize) by {
                    if q < j {
                        let p = choose|p: int| 0 <= p < before.len() && before[p] == q as usize;
                        assert(cand@[p] == q as usize);
                    } else {
                        assert(cand@[before.len() as int] == q as usize);
                    }
                }
            }
        }
        j = j + 1;
    }
    let mut out: Vec<usize> = Vec::new();
    proof {
        assert forall|q: int| 0 <= q < stats@.len() && qualifies(ts@, stats_key(ts@, #[trigger] stats@[q]), r)
            implies cand@.contains(q as usize) || out@.contains(q as usize) by {}
    }
    while out.len() < limit && cand.len() > 0
        invariant
            table_ok(ts@, stats@),
            out@.len() <= limit,
            selection_inv(ts@, stats@, r, cand@, out@),
        decreases cand.len(),
    {
        let mut m: usize = 0;
        let mut p: usize = 1;
        while p < cand.len()
            invariant
                table_ok(ts@, stats@),
                selection_inv(ts@, stats@, r, cand@, out@),
                0 < p <= cand.len(),
                m < p,
                forall|q: int|
                    0 <= q < p && q != m ==> ranks_before(
                        ts@,
                        stats_key(ts@, stats@[cand@[m as int] as int]),
                        stats_key(ts@, stats@[cand@[q] as int]),
                        r,
                    ),
            decreases cand.len() - p,
        {
            let ghost km = stats_key(ts@, stats@[cand@[m as int] as int]);
            let ghost kp = stats_key(ts@, stats@[cand@[p as int] as int]);
            if rank_before(ts, &stats[cand[p]], &stats[cand[m]], r) {
                proof {
                    assert forall|q: int| 0 <= q < p + 1 && q != p implies ranks_before(
                        ts@, kp, #[trigger] stats_key(ts@, stats@[cand@[q] as int]), r) by {
                        let kq = stats_key(ts@, stats@[cand@[q] as int]);
                        lemma_rank_order(ts@, kp, km, kq, r);
                    }
                }
                m = p;
            } else {
                proof {
                    assert(cand@[m as int] != cand@[p as int]);
                    assert(stats_key(ts@, stats@[cand@[m as int] as int]) != stats_key(ts@, stats@[cand@[p as int] as int])) by {
                        let a = cand@[m as int] as int;
                        let b = cand@[p as int] as int;
                        if a < b {
                            assert(stats_key(ts@, stats@[a]) != stats_key(ts@, stats@[b]));
                        } else {
                            assert(stats_key(ts@, stats@[b]) != stats_key(ts@, stats@[a]));
                        }
                    }
                    lemma_rank_order(ts@, km, kp, kp, r);
                }
            }
            p = p + 1;
        }
        let ghost old_cand = cand@;
        let ghost old_out = out@;
        let chosen = cand.remove(m);
        out.push(chosen);
        proof {
            lemma_selection_step(ts@, stats@, r, old_cand, old_out, m as int);
            assert(cand@ == old_cand.remove(m as int));
            assert(out@ == old_out.push(old_cand[m as int]));
        }
    }
    proof {
        lemma_selection_done(ts@, stats@, r, cand@, out@, limit as int);
    }
    out
}

/// `out` lists, in increasing order, the `n` smallest strings of `pool`, or
/// all of them when there are fewer.
pub open spec fn smallest_first(out: Seq<Seq<char>>, pool: Set<Seq<char>>, n: int) -> bool {
    &&& out.len() <= n
    &&& forall|i: int, j: int| 0 <= i < j < out.len() ==> lex_lt(out[i], out[j], char_order())
    &&& forall|i: int| 0 <= i < out.len() ==> pool.contains(#[trigger] out[i])
    &&& forall|x: Seq<char>|
        pool.contains(x) && !out.contains(x) ==> out.len() == n && forall|i: int|
            0 <= i < out.len() ==> lex_lt(#[trigger] out[i], x, char_order())
}

/// Whether `a` sorts before `b`.
pub fn str_less(a: &String, b: &String) -> (r: bool)
    ensures
        r == lex_lt(a@, b@, char_order()),
{
    let ca = chars_of(a.as_str());
    let cb = chars_of(b.as_str());
    proof { lemma_lex_irreflexive(ca@, char_order()); }
    compare_chars(ca.as_slice(), cb.as_slice()) == Order::Less
}

/// The `n` smallest of the distinct strings `v`, in increasing order.
pub fn smallest_strings(v: &Vec<String>, n: usize) -> (out: Vec<String>)
    requires
        views(v@).no_duplicates(),
    ensures
        smallest_first(views(out@), views(v@).to_set(), n as int),
{
    let ghost pool = views(v@).to_set();
    let mut cand: Vec<String> = Vec::new();
    let mut j: usize = 0;
    while j < v.len()
        invariant
            j <= v.len(),
            views(v@).no_duplicates(),
            views(cand@) == views(v@).take(j as int),
        decreases v.len() - j,
    {
        let c = v[j].clone();
        let ghost before = cand@;
        cand.push(c);
        proof {
            assert(c == v@[j as int]);
            assert(cand@ == before.push(c));
            assert(views(cand@) =~= views(before).push(c@));
            assert(views(cand@) =~= views(v@).take(j + 1));
        }
        j = j + 1;
    }
    assert(views(v@).take(v.len() as int) =~= views(v@));
    let mut out: Vec<String> = Vec::new();
    proof {
        lemma_ranks_injective();
        assert(views(out@) =~= Seq::empty());
        assert forall|x: Seq<char>| #[trigger] pool.contains(x) implies views(cand@).to_set().contains(x) || views(out@).contains(x) by {}
    }
    while out.len() < n && cand.len() > 0
        invariant
            out@.len() <= n,
            views(cand@).no_duplicates(),
            forall|i: int, j: int| 0 <= i < j < out@.len() ==> lex_lt(views(out@)[i], views(out@)[j], char_order()),
            forall|i: int| 0 <= i < out@.len() ==> pool.contains(#[trigger] views(out@)[i]),
            forall|i: int| 0 <= i < cand@.len() ==> pool.contains(#[trigger] views(cand@)[i]),
            forall|i: int, j: int| 0 <= i < out@.len() && 0 <= j < cand@.len() ==> lex_lt(views(out@)[i], views(cand@)[j], char_order()),
            forall|x: Seq<char>| #[trigger] pool.contains(x) ==> views(cand@).to_set().contains(x) || views(out@).contains(x),
            injective_rank(char_order()),
        decreases cand.len(),
    {
        let mut m: usize = 0;
        let mut p: usize = 1;
        while p < cand.len()
            invariant
                0 < p <= cand@.len(),
                m < p,
                views(cand@).no_duplicates(),
                injective_rank(char_order()),
                forall|q: int| 0 <= q < p && q != m ==> lex_lt(views(cand@)[m as int], views(cand@)[q], char_order()),
            decreases cand.len() - p,
        {
            if str_less(&cand[p], &cand[m]) {
                proof {
                    assert forall|q: int| 0 <= q < p + 1 && q != p implies lex_lt(views(cand@)[p as int], views(cand@)[q], char_order()) by {
                        if q != m {
                            lemma_lex_transitive(views(cand@)[p as int], views(cand@)[m as int], views(cand@)[q], char_order());
                        }
                    }
                }
                m = p;
            } else {
                proof {
                    assert(views(cand@)[m as int] != views(cand@)[p as int]);
                    lemma_lex_total(views(cand@)[m as int], views(cand@)[p as int], char_order());
                }
            }
            p = p + 1;
        }
        let ghost old_cand = views(cand@);
        let ghost old_out = views(out@);
        let chosen = cand.remove(m);
        out.push(chosen);
        proof {
            assert(views(cand@) =~= old_cand.remove(m as int));
            assert(views(out@) =~= old_out.push(old_cand[m as int]));
            assert forall|q: int| 0 <= q < views(cand@).len() implies views(cand@)[q] == old_cand[if q < m { q } else { q + 1 }] by {}
            assert(views(cand@).no_duplicates()) by {
                assert forall|a: int, b: int| 0 <= a < b < views(cand@).len() implies views(cand@)[a] != views(cand@)[b] by {
                    let aa = if a < m { a } else { a + 1 };
                    let bb = if b < m { b } else { b + 1 };
                    assert(old_cand[aa] != old_cand[bb]);
                }
            }
            assert forall|i: int, j: int| 0 <= i < out@.len() && 0 <= j < cand@.len() implies lex_lt(views(out@)[i], views(cand@)[j], char_order()) by {
                let jj = if j < m { j } else { j + 1 };
                if i < old_out.len() {
                    assert(views(out@)[i] == old_out[i]);
                }
            }
            assert forall|i: int, j: int| 0 <= i < j < out@.len() implies lex_lt(views(out@)[i], views(out@)[j], char_order()) by {
                if j == old_out.len() {
                    assert(views(out@)[i] == old_out[i]);
                }
            }
            assert forall|x: Seq<char>| #[trigger] pool.contains(x) implies views(cand@).to_set().contains(x) || views(out@).contains(x) by {
                if old_cand.to_set().contains(x) {
                    let q = choose|q: int| 0 <= q < old_cand.len() && old_cand[q] == x;
                    if q == m {
                        assert(views(out@)[old_out.len() as int] == x);
                    } else if q < m {
                        assert(views(cand@)[q] == x);
                    } else {
                        assert(views(cand@)[q - 1] == x);
                    }
                } else {
                    let q = choose|q: int| 0 <= q < old_out.len() && old_out[q] == x;
                    assert(views(out@)[q] == x);
                }
            }
            assert forall|i: int| 0 <= i < out@.len() implies pool.contains(#[trigger] views(out@)[i]) by {
                if i < old_out.len() {
                    assert(views(out@)[i] == old_out[i]);
                }
            }
        }
    }
    proof {
        let o = views(out@);
        assert forall|x: Seq<char>| pool.contains(x) && !o.contains(x) implies o.len() == n && forall|i: int|
            0 <= i < o.len() ==> lex_lt(#[trigger] o[i], x, char_order()) by {
            let q = choose|q: int| 0 <= q < views(cand@).len() && views(cand@)[q] == x;
        }
    }
    out
}

/// A stable path: a group whose sessions succeeded while following the
/// method, at least three times and never otherwise.
pub struct LearningStablePath {
    pub capability: String,
    pub context: String,
    pub compliant_success_sessions: u32,
    pub artifact_ref_count: u32,
}

/// Failure residue: a group with repeated failures or method conflicts.
pub struct LearningFailureResidue {
    pub capability: String,
    pub context: String,
    pub failed_sessions: u32,
    pub method_conflict_sessions: u32,
    pub artifact_backed: bool,
}

/// A regression candidate: a group with repeated failures and artifacts to
/// replay them.
pub struct LearningRegressionCandidate {
    pub capability: String,
    pub context: String,
    pub trial_key: Option<String>,
    pub failed_sessions: u32,
    pub artifact_refs: Vec<String>,
    pub verification: Option<String>,
}

/// The position of the first trace of group `k`.
pub open spec fn first_pos(ts: Seq<LearningTrace>, k: LearningKey) -> int {
    choose|i: int| is_first_pos(ts, i) && key_of(ts[i]) == k
}

/// The context shown for group `k`: that of its first trace.
pub open spec fn group_context(ts: Seq<LearningTrace>, k: LearningKey) -> Seq<char> {
    spec_compact_context(opt_view(ts[first_pos(ts, k)].context_text), k.0)
}

proof fn lemma_first_pos(ts: Seq<LearningTrace>, i: int)
    requires
        is_first_pos(ts, i),
    ensures
        first_pos(ts, key_of(ts[i])) == i,
{
    let k = key_of(ts[i]);
    let f = first_pos(ts, k);
    assert(is_first_pos(ts, f) && key_of(ts[f]) == k);
    if f < i {
        assert(key_of(ts[f]) != key_of(ts[i]));
    }
    if i < f {
        assert(key_of(ts[i]) != key_of(ts[f]));
    }
}

pub open spec fn stable_matches(ts: Seq<LearningTrace>, k: LearningKey, rec: LearningStablePath) -> bool {
    &&& rec.capability@ == k.0
    &&& rec.context@ == group_context(ts, k)
    &&& rec.compliant_success_sessions == count_of(ts, k, SessionKind::CompliantSuccess)
    &&& rec.artifact_ref_count == artifacts(ts, k).len() as u32
}

pub open spec fn residue_matches(ts: Seq<LearningTrace>, k: LearningKey, rec: LearningFailureResidue) -> bool {
    &&& rec.capability@ == k.0
    &&& rec.context@ == group_context(ts, k)
    &&& rec.failed_sessions == count_of(ts, k, SessionKind::Failure)
    &&& rec.method_conflict_sessions == conflicts_of(ts, k)
    &&& rec.artifact_backed == (artifacts(ts, k).len() > 0)
}

/// At most this many artifacts are listed for a regression candidate.
pub const LISTED_ARTIFACTS: usize = 5;

pub open spec fn regression_matches(
    ts: Seq<LearningTrace>,
    k: LearningKey,
    rec: LearningRegressionCandidate,
) -> bool {
    &&& rec.capability@ == k.0
    &&& rec.context@ == group_context(ts, k)
    &&& opt_view(rec.trial_key) == k.2
    &&& rec.failed_sessions == count_of(ts, k, SessionKind::Failure)
    &&& smallest_first(views(rec.artifact_refs@), artifacts(ts, k), LISTED_ARTIFACTS as int)
    &&& opt_view(rec.verification) == first_verification(ts, k)
}

/// The context of the group of `g`.
fn context_of(ts: &[LearningTrace], g: &GroupStats) -> (c: String)
    requires
        stats_ok(ts@, *g),
        is_first_pos(ts@, g.rep as int),
    ensures
        c@ == group_context(ts@, stats_key(ts@, *g)),
{
    proof {
        lemma_first_pos(ts@, g.rep as int);
    }
    let t = &ts[g.rep];
    let text: Option<&str> = match &t.context_text {
        Some(c) => Some(c.as_str()),
        None => None,
    };
    compact_context(text, t.capability.as_str())
}

fn stable_record(ts: &[LearningTrace], g: &GroupStats) -> (rec: LearningStablePath)
    requires
        stats_ok(ts@, *g),
        is_first_pos(ts@, g.rep as int),
    ensures
        stable_matches(ts@, stats_key(ts@, *g), rec),
{
    proof {
        views(g.artifact_refs@).unique_seq_to_set();
    }
    LearningStablePath {
        capability: ts[g.rep].capability.clone(),
        context: context_of(ts, g),
        compliant_success_sessions: g.compliant_success,
        artifact_ref_count: g.artifact_refs.len() as u32,
    }
}

fn residue_record(ts: &[LearningTrace], g: &GroupStats) -> (rec: LearningFailureResidue)
    requires
        stats_ok(ts@, *g),
        is_first_pos(ts@, g.rep as int),
    ensures
        residue_matches(ts@, stats_key(ts@, *g), rec),
{
    proof {
        views(g.artifact_refs@).unique_seq_to_set();
    }
    LearningFailureResidue {
        capability: ts[g.rep].capability.clone(),
        context: context_of(ts, g),
        failed_sessions: g.failed,
        method_conflict_sessions: g.method_conflicts,
        artifact_backed: g.artifact_refs.len() > 0,
    }
}

fn regression_record(ts: &[LearningTrace], g: &GroupStats) -> (rec: LearningRegressionCandidate)
    requires
        stats_ok(ts@, *g),
        is_first_pos(ts@, g.rep as int),
    ensures
        regression_matches(ts@, stats_key(ts@, *g), rec),
{
    LearningRegressionCandidate {
        capability: ts[g.rep].capability.clone(),
        context: context_of(ts, g),
        trial_key: ts[g.rep].trial_key.clone(),
        failed_sessions: g.failed,
        artifact_refs: smallest_strings(&g.artifact_refs, LISTED_ARTIFACTS),
        verification: g.verification.clone(),
    }
}

/// `list` holds, in rank order, the records of the first `limit` stable paths.
pub open spec fn stable_list_ok(ts: Seq<LearningTrace>, list: Seq<LearningStablePath>, limit: int) -> bool {
    exists|ks: Seq<LearningKey>|
        #[trigger] top_ranked(ts, ks, Ranking::StablePath, limit) && ks.len() == list.len() && forall|i: int|
            0 <= i < ks.len() ==> stable_matches(ts, ks[i], #[trigger] list[i])
}

/// `list` holds, in rank order, the records of the first `limit` groups of
/// failure residue.
pub open spec fn residue_list_ok(ts: Seq<LearningTrace>, list: Seq<LearningFailureResidue>, limit: int) -> bool {
    exists|ks: Seq<LearningKey>|
        #[trigger] top_ranked(ts, ks, Ranking::FailureResidue, limit) && ks.len() == list.len() && forall|i: int|
            0 <= i < ks.len() ==> residue_matches(ts, ks[i], #[trigger] list[i])
}

/// `list` holds, in rank order, the records of the first `limit` regression
/// candidates.
pub open spec fn regression_list_ok(
    ts: Seq<LearningTrace>,
    list: Seq<LearningRegressionCandidate>,
    limit: int,
) -> bool {
    exists|ks: Seq<LearningKey>|
        #[trigger] top_ranked(ts, ks, Ranking::RegressionCandidate, limit) && ks.len() == list.len() && forall|
            i: int,
        | 0 <= i < ks.len() ==> regression_matches(ts, ks[i], #[trigger] list[i])
}

fn stable_list(ts: &[LearningTrace], stats: &Vec<GroupStats>, limit: usize) -> (list: Vec<LearningStablePath>)
    requires
        table_ok(ts@, stats@),
    ensures
        stable_list_ok(ts@, list@, limit as int),
{
    let out = select_top(ts, stats, Ranking::StablePath, limit);
    let ghost ks = keys_at(ts@, stats@, out@);
    let mut list: Vec<LearningStablePath> = Vec::new();
    let mut i: usize = 0;
    while i < out.len()
        invariant
            table_ok(ts@, stats@),
            forall|p: int| 0 <= p < out@.len() ==> #[trigger] out@[p] < stats@.len(),
            ks == keys_at(ts@, stats@, out@),
            i <= out.len(),
            list@.len() == i,
            forall|p: int| 0 <= p < i ==> stable_matches(ts@, ks[p], #[trigger] list@[p]),
        decreases out.len() - i,
    {
        let rec = stable_record(ts, &stats[out[i]]);
        list.push(rec);
        i = i + 1;
    }
    assert(top_ranked(ts@, ks, Ranking::StablePath, limit as int));
    list
}

fn residue_list(ts: &[LearningTrace], stats: &Vec<GroupStats>, limit: usize) -> (list: Vec<LearningFailureResidue>)
    requires
        table_ok(ts@, stats@),
    ensures
        residue_list_ok(ts@, list@, limit as int),
{
    let out = select_top(ts, stats, Ranking::FailureResidue, limit);
    let ghost ks = keys_at(ts@, stats@, out@);
    let mut list: Vec<LearningFailureResidue> = Vec::new();
    let mut i: usize = 0;
    while i < out.len()
        invariant
            table_ok(ts@, stats@),
            forall|p: int| 0 <= p < out@.len() ==> #[trigger] out@[p] < stats@.len(),
            ks == keys_at(ts@, stats@, out@),
            i <= out.len(),
            list@.len() == i,
            forall|p: int| 0 <= p < i ==> residue_matches(ts@, ks[p], #[trigger] list@[p]),
        decreases out.len() - i,
    {
        let rec = residue_record(ts, &stats[out[i]]);
        list.push(rec);
        i = i + 1;
    }
    assert(top_ranked(ts@, ks, Ranking::FailureResidue, limit as int));
    list
}

fn regression_list(ts: &[LearningTrace], stats: &Vec<GroupStats>, limit: usize) -> (list: Vec<
    LearningRegressionCandidate,
>)
    requires
        table_ok(ts@, stats@),
    ensures
        regression_list_ok(ts@, list@, limit as int),
{
    let out = select_top(ts, stats, Ranking::RegressionCandidate, limit);
    let ghost ks = keys_at(ts@, stats@, out@);
    let mut list: Vec<LearningRegressionCandidate> = Vec::new();
    let mut i: usize = 0;
    while i < out.len()
        invariant
            table_ok(ts@, stats@),
            forall|p: int| 0 <= p < out@.len() ==> #[trigger] out@[p] < stats@.len(),
            ks == keys_at(ts@, stats@, out@),
            i <= out.len(),
            list@.len() == i,
            forall|p: int| 0 <= p < i ==> regression_matches(ts@, ks[p], #[trigger] list@[p]),
        decreases out.len() - i,
    {
        let rec = regression_record(ts, &stats[out[i]]);
        list.push(rec);
        i = i + 1;
    }
    assert(top_ranked(ts@, ks, Ranking::RegressionCandidate, limit as int));
    list
}

/// The group-level conditions that weigh on the compression debt.
#[derive(PartialEq, Eq, Structural, Clone, Copy)]
pub enum GroupTally {
    /// Some session went against the method.
    MethodConflict,
    /// At least two failed sessions and no artifact to replay them.
    UnverifiedFailure,
    /// Both failed and successful sessions.
    ConflictingOutcome,
}

pub open spec fn tallied(ts: Seq<LearningTrace>, k: LearningKey, t: GroupTally) -> bool {
    let failed = count_of(ts, k, SessionKind::Failure);
    match t {
        GroupTally::MethodConflict => conflicts_of(ts, k) > 0,
        GroupTally::UnverifiedFailure => failed >= 2 && artifacts(ts, k).len() == 0,
        GroupTally::ConflictingOutcome => failed > 0 && count_of(ts, k, SessionKind::CompliantSuccess)
            + count_of(ts, k, SessionKind::NoncompliantSuccess) > 0,
    }
}

/// The groups that meet condition `t`.
pub open spec fn tallied_groups(ts: Seq<LearningTrace>, t: GroupTally) -> Set<LearningKey> {
    Set::new(|k: LearningKey| is_group(ts, k) && tallied(ts, k, t))
}

fn tallied_exec(ts: &[LearningTrace], g: &GroupStats, t: GroupTally) -> (b: bool)
    requires
        stats_ok(ts@, *g),
    ensures
        b == tallied(ts@, stats_key(ts@, *g), t),
{
    proof {
        views(g.artifact_refs@).unique_seq_to_set();
    }
    match t {
        GroupTally::MethodConflict => g.method_conflicts > 0,
        GroupTally::UnverifiedFailure => g.failed >= 2 && g.artifact_refs.len() == 0,
        GroupTally::ConflictingOutcome => g.failed > 0 && (g.compliant_success > 0
            || g.noncompliant_success > 0),
    }
}

/// Some of the first `j` aggregates belongs to group `k`, which meets `t`.
pub open spec fn tallied_before(
    ts: Seq<LearningTrace>,
    stats: Seq<GroupStats>,
    j: int,
    k: LearningKey,
    t: GroupTally,
) -> bool {
    exists|q: int| 0 <= q < j && stats_key(ts, #[trigger] stats[q]) == k && tallied(ts, k, t)
}

/// The number of groups that meet condition `t`.
fn count_groups(ts: &[LearningTrace], stats: &Vec<GroupStats>, t: GroupTally) -> (n: usize)
    requires
        table_ok(ts@, stats@),
    ensures
        n == tallied_groups(ts@, t).len(),
{
    let ghost mut acc: Seq<LearningKey> = Seq::empty();
    let mut n: usize = 0;
    let mut j: usize = 0;
    while j < stats.len()
        invariant
            table_ok(ts@, stats@),
            j <= stats.len(),
            n == acc.len(),
            n <= j,
            acc.no_duplicates(),
            forall|k: LearningKey| #[trigger] acc.contains(k) <==> tallied_before(ts@, stats@, j as int, k, t),
        decreases stats.len() - j,
    {
        let ghost kj = stats_key(ts@, stats@[j as int]);
        let ghost old_acc = acc;
        let b = tallied_exec(ts, &stats[j], t);
        if b {
            proof {
                assert(!acc.contains(kj)) by {
                    if acc.contains(kj) {
                        let q = choose|q: int| 0 <= q < j && stats_key(ts@, #[trigger] stats@[q]) == kj && tallied(ts@, kj, t);
                        assert(stats_key(ts@, stats@[q]) != stats_key(ts@, stats@[j as int]));
                    }
                }
                acc = acc.push(kj);
            }
            n = n + 1;
        }
        proof {
            assert forall|k: LearningKey| #[trigger] acc.contains(k) <==> tallied_before(ts@, stats@, j + 1, k, t) by {
                if acc.contains(k) {
                    if b && k == kj {
                        assert(stats_key(ts@, stats@[j as int]) == k);
                    } else {
                        if b {
                            let p = choose|p: int| 0 <= p < acc.len() && acc[p] == k;
                            assert(old_acc[p] == k);
                        }
                        assert(old_acc.contains(k));
                        let q = choose|q: int| 0 <= q < j && stats_key(ts@, #[trigger] stats@[q]) == k && tallied(ts@, k, t);
                    }
                }
                if tallied_before(ts@, stats@, j + 1, k, t) {
                    let q = choose|q: int| 0 <= q < j + 1 && stats_key(ts@, #[trigger] stats@[q]) == k && tallied(ts@, k, t);
                    if q == j {
                        assert(b);
                        assert(acc[acc.len() - 1] == k);
                    } else {
                        assert(tallied_before(ts@, stats@, j as int, k, t));
                        assert(old_acc.contains(k));
                        let p = choose|p: int| 0 <= p < old_acc.len() && old_acc[p] == k;
                        assert(acc[p] == k);
                    }
                }
            }
        }
        j = j + 1;
    }
    proof {
        assert(acc.to_set() =~= tallied_groups(ts@, t)) by {
            assert forall|k: LearningKey| acc.to_set().contains(k) <==> tallied_groups(ts@, t).contains(k) by {
                if acc.to_set().contains(k) {
                    assert(acc.contains(k));
                    let q = choose|q: int| 0 <= q < stats@.len() && stats_key(ts@, #[trigger] stats@[q]) == k && tallied(ts@, k, t);
                    let g = stats@[q];
                    assert(stats_ok(ts@, g));
                    assert(key_of(ts@[g.rep as int]) == k);
                }
                if tallied_groups(ts@, t).contains(k) {
                    let i = choose|i: int| 0 <= i < ts@.len() && key_of(#[trigger] ts@[i]) == k;
                    assert(in_table(ts@, stats@, key_of(ts@[i])));
                    let q = choose|q: int| 0 <= q < stats@.len() && stats_key(ts@, #[trigger] stats@[q]) == key_of(ts@[i]);
                    assert(tallied_before(ts@, stats@, stats@.len() as int, k, t));
                    assert(acc.contains(k));
                }
            }
        }
        acc.unique_seq_to_set();
    }
    n
}

/// A trace whose capability, lowercased, mentions editing or writing.
pub open spec fn patch_like(t: LearningTrace) -> bool {
    has_infix(ascii_lowered(t.capability@), "edit"@) || has_infix(ascii_lowered(t.capability@), "write"@)
}

/// The number of patch-like traces.
pub open spec fn patch_count(ts: Seq<LearningTrace>) -> nat
    decreases ts.len(),
{
    if ts.len() == 0 {
        0
    } else {
        patch_count(ts.drop_last()) + if patch_like(ts.last()) {
            1nat
        } else {
            0nat
        }
    }
}

/// The number of patch-like traces.
pub fn count_patch_like(ts: &[LearningTrace]) -> (n: usize)
    ensures
        n == patch_count(ts@),
{
    let mut n: usize = 0;
    let mut i: usize = 0;
    proof {
        reveal_strlit("edit");
        reveal_strlit("write");
    }
    let edit: [char; 4] = ['e', 'd', 'i', 't'];
    let write: [char; 5] = ['w', 'r', 'i', 't', 'e'];
    assert(edit@ =~= "edit"@);
    assert(write@ =~= "write"@);
    while i < ts.len()
        invariant
            i <= ts.len(),
            n <= i,
            n == patch_count(ts@.take(i as int)),
            edit@ == "edit"@,
            write@ == "write"@,
        decreases ts.len() - i,
    {
        let chars = chars_of(ts[i].capability.as_str());
        let lower = ascii_lowercase(chars.as_slice());
        assert(ts@.take(i + 1).drop_last() =~= ts@.take(i as int));
        if contains_chars(lower.as_slice(), edit.as_slice()) || contains_chars(lower.as_slice(), write.as_slice()) {
            n = n + 1;
        }
        i = i + 1;
    }
    assert(ts@.take(ts.len() as int) =~= ts@);
    n
}

/// How much unresolved conflict a space carries.
pub struct LearningCompressionDebt {
    /// `high`, `medium` or `low`.
    pub level: &'static str,
    /// The score in hundredths, from 0 to 100.
    pub score_hundredths: u32,
    /// Why the score is what it is, one reason per contribution.
    pub reasons: Vec<String>,
}

/// The debt score in hundredths: method conflicts weigh 35, unverified
/// failures 30, conflicting outcomes 20, negative feedback 15, and patch-heavy
/// unverified failure 10; the sum is capped at 100.
pub open spec fn debt_score(m: nat, u: nat, c: nat, patch: nat, neg: nat) -> nat {
    let raw = (if m > 0 { 35nat } else { 0nat }) + (if u > 0 { 30nat } else { 0nat }) + (if c > 0 {
        20nat
    } else {
        0nat
    }) + (if neg > 0 { 15nat } else { 0nat }) + (if patch >= 8 && u > 0 { 10nat } else { 0nat });
    if raw > 100 {
        100
    } else {
        raw
    }
}

/// `high` from 70, `medium` from 35, `low` below.
pub open spec fn debt_level(score: nat) -> Seq<char> {
    if score >= 70 {
        "high"@
    } else if score >= 35 {
        "medium"@
    } else {
        "low"@
    }
}

/// `reason` followed by `tail` when `cond` holds.
pub open spec fn reason_if(cond: bool, reason: Seq<char>, tail: Seq<Seq<char>>) -> Seq<Seq<char>> {
    if cond {
        seq![reason] + tail
    } else {
        tail
    }
}

/// The reasons given for the debt, in the order of its contributions.
pub open spec fn debt_reasons(m: nat, u: nat, c: nat, patch: nat, neg: nat) -> Seq<Seq<char>> {
    reason_if(
        m > 0,
        spec_decimal(m) + " method-conflict group(s)"@,
        reason_if(
            u > 0,
            spec_decimal(u) + " repeated failure group(s) without artifact-backed regression evidence"@,
            reason_if(
                c > 0,
                spec_decimal(c) + " context group(s) have both success and failure residue"@,
                reason_if(
                    neg > 0,
                    spec_decimal(neg) + " negative local follow event(s) in 24h"@,
                    reason_if(
                        patch >= 8 && u > 0,
                        "patch-heavy residue is accumulating without regression artifacts"@,
                        seq![],
                    ),
                ),
            ),
        ),
    )
}

/// `d` is the debt for the given tallies and negative feedback count.
pub open spec fn debt_ok(d: LearningCompressionDebt, m: nat, u: nat, c: nat, patch: nat, neg: nat) -> bool {
    &&& d.score_hundredths == debt_score(m, u, c, patch, neg)
    &&& d.level@ == debt_level(debt_score(m, u, c, patch, neg))
    &&& views(d.reasons@) == debt_reasons(m, u, c, patch, neg)
}

/// The compression debt of a space.
pub fn compression_debt(
    method_conflict_groups: usize,
    unverified_failure_groups: usize,
    conflicting_outcome_groups: usize,
    patch_like_traces: usize,
    local_feedback: &SpaceFeedbackSummary,
) -> (d: LearningCompressionDebt)
    ensures
        debt_ok(
            d,
            method_conflict_groups as nat,
            unverified_failure_groups as nat,
            conflicting_outcome_groups as nat,
            patch_like_traces as nat,
            local_feedback.negative_24h as nat,
        ),
{
    let m = method_conflict_groups;
    let u = unverified_failure_groups;
    let c = conflicting_outcome_groups;
    let neg = local_feedback.negative_24h;
    let mut score: u32 = 0;
    let mut reasons: Vec<String> = Vec::new();
    proof {
        reveal_strlit(" method-conflict group(s)");
        reveal_strlit(" repeated failure group(s) without artifact-backed regression evidence");
        reveal_strlit(" context group(s) have both success and failure residue");
        reveal_strlit(" negative local follow event(s) in 24h");
        reveal_strlit("patch-heavy residue is accumulating without regression artifacts");
    }
    if m > 0 {
        score = score + 35;
        reasons.push(concat_str(decimal_string(m as u64), " method-conflict group(s)"));
    }
    if u > 0 {
        score = score + 30;
        reasons.push(
            concat_str(
                decimal_string(u as u64),
                " repeated failure group(s) without artifact-backed regression evidence",
            ),
        );
    }
    if c > 0 {
        score = score + 20;
        reasons.push(
            concat_str(decimal_string(c as u64), " context group(s) have both success and failure residue"),
        );
    }
    if neg > 0 {
        score = score + 15;
        reasons.push(concat_str(decimal_string(neg as u64), " negative local follow event(s) in 24h"));
    }
    if patch_like_traces >= 8 && u > 0 {
        score = score + 10;
        reasons.push(String::from_str("patch-heavy residue is accumulating without regression artifacts"));
    }
    if score > 100 {
        score = 100;
    }
    let level = if score >= 70 {
        "high"
    } else if score >= 35 {
        "medium"
    } else {
        "low"
    };
    let d = LearningCompressionDebt { level, score_hundredths: score, reasons };
    assert(views(d.reasons@) =~= debt_reasons(
        m as nat,
        u as nat,
        c as nat,
        patch_like_traces as nat,
        neg as nat,
    ));
    d
}

/// The learning status of a space: `quiet` without traces or feedback,
/// `blocked` under high debt with failure residue, `compressed` with stable
/// paths under low debt, `converging` with stable paths, regression
/// candidates or positive feedback, and `accumulating` otherwise.
pub open spec fn spec_learning_status(
    trace_count: nat,
    stable_count: nat,
    residue_count: nat,
    regression_count: nat,
    level: Seq<char>,
    positive: nat,
    negative: nat,
) -> Seq<char> {
    if trace_count == 0 && positive == 0 && negative == 0 {
        "quiet"@
    } else if level == "high"@ && residue_count > 0 {
        "blocked"@
    } else if stable_count > 0 && level == "low"@ {
        "compressed"@
    } else if stable_count > 0 || regression_count > 0 || positive > 0 {
        "converging"@
    } else {
        "accumulating"@
    }
}

/// The learning status of a space from its lists, debt and feedback.
pub fn learning_status(
    trace_count: usize,
    stable_count: usize,
    residue_count: usize,
    regression_count: usize,
    debt_score_hundredths: u32,
    local_feedback: &SpaceFeedbackSummary,
) -> (st: &'static str)
    ensures
        st@ == spec_learning_status(
            trace_count as nat,
            stable_count as nat,
            residue_count as nat,
            regression_count as nat,
            debt_level(debt_score_hundredths as nat),
            local_feedback.positive_24h as nat,
            local_feedback.negative_24h as nat,
        ),
{
    proof {
        reveal_strlit("high");
        reveal_strlit("medium");
        reveal_strlit("low");
        assert("high"@.len() == 4 && "medium"@.len() == 6 && "low"@.len() == 3);
        assert("medium"@ != "high"@ && "low"@ != "high"@ && "medium"@ != "low"@ && "high"@ != "low"@);
    }
    let high = debt_score_hundredths >= 70;
    let low = debt_score_hundredths < 35;
    if trace_count == 0 && local_feedback.positive_24h == 0 && local_feedback.negative_24h == 0 {
        "quiet"
    } else if high && residue_count > 0 {
        "blocked"
    } else if stable_count > 0 && low {
        "compressed"
    } else if stable_count > 0 || regression_count > 0 || local_feedback.positive_24h > 0 {
        "converging"
    } else {
        "accumulating"
    }
}

/// The learning view of a space.
pub struct SpaceLearningView {
    pub status: &'static str,
    pub stable_paths: Vec<LearningStablePath>,
    pub failure_residue: Vec<LearningFailureResidue>,
    pub regression_candidates: Vec<LearningRegressionCandidate>,
    pub compression_debt: LearningCompressionDebt,
}

/// `v` is the learning view of the traces `ts` with feedback `fb`, listing at
/// most `limit` groups per list (at least one).
pub open spec fn view_ok(ts: Seq<LearningTrace>, fb: SpaceFeedbackSummary, limit: usize, v: SpaceLearningView) -> bool {
    let lim = if limit < 1 { 1int } else { limit as int };
    let m = tallied_groups(ts, GroupTally::MethodConflict).len();
    let u = tallied_groups(ts, GroupTally::UnverifiedFailure).len();
    let c = tallied_groups(ts, GroupTally::ConflictingOutcome).len();
    let patch = patch_count(ts);
    &&& stable_list_ok(ts, v.stable_paths@, lim)
    &&& residue_list_ok(ts, v.failure_residue@, lim)
    &&& regression_list_ok(ts, v.regression_candidates@, lim)
    &&& debt_ok(v.compression_debt, m, u, c, patch, fb.negative_24h as nat)
    &&& v.status@ == spec_learning_status(
        ts.len(),
        v.stable_paths@.len(),
        v.failure_residue@.len(),
        v.regression_candidates@.len(),
        debt_level(debt_score(m, u, c, patch, fb.negative_24h as nat)),
        fb.positive_24h as nat,
        fb.negative_24h as nat,
    )
}

/// Compresses the traces of a space into its learning view: groups ranked
/// into stable paths, failure residue and regression candidates (at most
/// `limit` each, at least one), the compression debt and the status.
pub fn view_from_traces(
    traces: &[LearningTrace],
    local_feedback: &SpaceFeedbackSummary,
    limit: usize,
) -> (v: SpaceLearningView)
    ensures
        view_ok(traces@, *local_feedback, limit, v),
{
    let stats = group_table(traces);
    let lim: usize = if limit < 1 { 1 } else { limit };
    let stable_paths = stable_list(traces, &stats, lim);
    let failure_residue = residue_list(traces, &stats, lim);
    let regression_candidates = regression_list(traces, &stats, lim);
    let m = count_groups(traces, &stats, GroupTally::MethodConflict);
    let u = count_groups(traces, &stats, GroupTally::UnverifiedFailure);
    let c = count_groups(traces, &stats, GroupTally::ConflictingOutcome);
    let patch = count_patch_like(traces);
    let compression_debt = compression_debt(m, u, c, patch, local_feedback);
    let status = learning_status(
        traces.len(),
        stable_paths.len(),
        failure_residue.len(),
        regression_candidates.len(),
        compression_debt.score_hundredths,
        local_feedback,
    );
    SpaceLearningView { status, stable_paths, failure_residue, regression_candidates, compression_debt }
}

/// The groups that belong in list `r`.
pub open spec fn qualifying_groups(ts: Seq<LearningTrace>, r: Ranking) -> Set<LearningKey> {
    Set::new(|k: LearningKey| is_group(ts, k) && qualifies(ts, k, r))
}

/// `min(a, b)`.
pub open spec fn min_of(a: int, b: int) -> int {
    if a < b {
        a
    } else {
        b
    }
}

/// A ranked list holds exactly the first `limit` of its qualifying groups,
/// or all of them where there are fewer.
pub proof fn lemma_top_ranked_len(ts: Seq<LearningTrace>, out: Seq<LearningKey>, r: Ranking, limit: int)
    requires
        top_ranked(ts, out, r, limit),
        limit >= 0,
    ensures
        qualifying_groups(ts, r).finite(),
        out.len() == min_of(limit, qualifying_groups(ts, r).len() as int),
{
    broadcast use vstd::seq_lib::seq_to_set_is_finite;
    let q = qualifying_groups(ts, r);
    let all = ts.map_values(|t: LearningTrace| key_of(t));
    assert forall|k: LearningKey| #[trigger] q.contains(k) implies all.to_set().contains(k) by {
        let i = choose|i: int| 0 <= i < ts.len() && key_of(#[trigger] ts[i]) == k;
        assert(all[i] == k);
    }
    vstd::set_lib::lemma_len_subset(q, all.to_set());
    assert(out.no_duplicates()) by {
        assert forall|i: int, j: int| 0 <= i < out.len() && 0 <= j < out.len() && i != j implies out[i] != out[j] by {
            lemma_rank_order(ts, out[i], out[j], out[j], r);
            lemma_rank_order(ts, out[j], out[i], out[i], r);
        }
    }
    out.unique_seq_to_set();
    assert forall|k: LearningKey| #[trigger] out.to_set().contains(k) implies q.contains(k) by {
        let i = choose|i: int| 0 <= i < out.len() && out[i] == k;
        assert(is_group(ts, out[i]) && qualifies(ts, out[i], r));
    }
    vstd::set_lib::lemma_len_subset(out.to_set(), q);
    if out.len() < limit {
        assert forall|k: LearningKey| #[trigger] q.contains(k) implies out.to_set().contains(k) by {
            if !out.contains(k) {
                assert(out.len() == limit);
            }
        }
        vstd::set_lib::lemma_len_subset(q, out.to_set());
    }
}

/// Each list of the learning view holds the first `max(limit, 1)` of its
/// qualifying groups, or all of them where there are fewer.
pub proof fn lemma_view_list_lengths(ts: Seq<LearningTrace>, fb: SpaceFeedbackSummary, limit: usize, v: SpaceLearningView)
    requires
        view_ok(ts, fb, limit, v),
    ensures
        v.stable_paths@.len() == min_of(
            if limit < 1 { 1int } else { limit as int },
            qualifying_groups(ts, Ranking::StablePath).len() as int,
        ),
        v.failure_residue@.len() == min_of(
            if limit < 1 { 1int } else { limit as int },
            qualifying_groups(ts, Ranking::FailureResidue).len() as int,
        ),
        v.regression_candidates@.len() == min_of(
            if limit < 1 { 1int } else { limit as int },
            qualifying_groups(ts, Ranking::RegressionCandidate).len() as int,
        ),
{
    let lim = if limit < 1 { 1int } else { limit as int };
    let ks = choose|ks: Seq<LearningKey>|
        #[trigger] top_ranked(ts, ks, Ranking::StablePath, lim) && ks.len() == v.stable_paths@.len() && forall|i: int|
            0 <= i < ks.len() ==> stable_matches(ts, ks[i], #[trigger] v.stable_paths@[i]);
    lemma_top_ranked_len(ts, ks, Ranking::StablePath, lim);
    let ks2 = choose|ks: Seq<LearningKey>|
        #[trigger] top_ranked(ts, ks, Ranking::FailureResidue, lim) && ks.len() == v.failure_residue@.len() && forall|
            i: int,
        | 0 <= i < ks.len() ==> residue_matches(ts, ks[i], #[trigger] v.failure_residue@[i]);
    lemma_top_ranked_len(ts, ks2, Ranking::FailureResidue, lim);
    let ks3 = choose|ks: Seq<LearningKey>|
        #[trigger] top_ranked(ts, ks, Ranking::RegressionCandidate, lim) && ks.len() == v.regression_candidates@.len()
            && forall|i: int| 0 <= i < ks.len() ==> regression_matches(ts, ks[i], #[trigger] v.regression_candidates@[i]);
    lemma_top_ranked_len(ts, ks3, Ranking::RegressionCandidate, lim);
}

/// A group that has a trace has a first one.
proof fn lemma_has_first_pos(ts: Seq<LearningTrace>, k: LearningKey, j: int)
    requires
        0 <= j < ts.len(),
        key_of(ts[j]) == k,
    ensures
        exists|i: int| is_first_pos(ts, i) && key_of(#[trigger] ts[i]) == k,
    decreases j,
{
    if exists|q: int| 0 <= q < j && key_of(#[trigger] ts[q]) == k {
        let q = choose|q: int| 0 <= q < j && key_of(#[trigger] ts[q]) == k;
        lemma_has_first_pos(ts, k, q);
    } else {
        assert(is_first_pos(ts, j));
    }
}

proof fn lemma_first_verification_concat(a: Seq<LearningTrace>, b: Seq<LearningTrace>, k: LearningKey)
    ensures
        first_verification(a + b, k) == if first_verification(a, k) is Some {
            first_verification(a, k)
        } else {
            first_verification(b, k)
        },
    decreases b.len(),
{
    if b.len() == 0 {
        assert(a + b =~= a);
    } else {
        lemma_first_verification_concat(a, b.drop_last(), k);
        assert((a + b).drop_last() =~= a + b.drop_last());
        assert((a + b).last() == b.last());
    }
}

/// Every trace's group, sessions, artifacts, first verification and
/// context are the same in `ts` and in `ts` repeated.
proof fn lemma_doubled_group(ts: Seq<LearningTrace>, k: LearningKey)
    ensures
        is_group(ts + ts, k) == is_group(ts, k),
        forall|kind: SessionKind| #[trigger] sessions(ts + ts, k, kind) == sessions(ts, k, kind),
        artifacts(ts + ts, k) == artifacts(ts, k),
        first_verification(ts + ts, k) == first_verification(ts, k),
        is_group(ts, k) ==> group_context(ts + ts, k) == group_context(ts, k),
{
    let u = ts + ts;
    let n = ts.len() as int;
    assert forall|i: int| 0 <= i < u.len() implies #[trigger] u[i] == ts[if i < n { i } else { i - n }] by {}
    if is_group(u, k) {
        let i = choose|i: int| 0 <= i < u.len() && key_of(#[trigger] u[i]) == k;
        let j = if i < n { i } else { i - n };
        assert(key_of(ts[j]) == k);
    }
    if is_group(ts, k) {
        let i = choose|i: int| 0 <= i < ts.len() && key_of(#[trigger] ts[i]) == k;
        assert(u[i] == ts[i]);
        lemma_has_first_pos(ts, k, i);
        let f = choose|f: int| is_first_pos(ts, f) && key_of(#[trigger] ts[f]) == k;
        lemma_first_pos(ts, f);
        assert(is_first_pos(u, f)) by {
            assert forall|q: int| 0 <= q < f implies key_of(#[trigger] u[q]) != key_of(u[f]) by {
                assert(u[q] == ts[q]);
            }
        }
        lemma_first_pos(u, f);
    }
    assert forall|kind: SessionKind| #[trigger] sessions(u, k, kind) == sessions(ts, k, kind) by {
        assert forall|x: Seq<char>| has_session(u, k, kind, x) == has_session(ts, k, kind, x) by {
            if has_session(u, k, kind, x) {
                let i = choose|i: int|
                    0 <= i < u.len() && key_of(#[trigger] u[i]) == k && of_kind(u[i], kind) && session_key(u[i]) == x;
                let j = if i < n { i } else { i - n };
                assert(key_of(ts[j]) == k);
            }
            if has_session(ts, k, kind, x) {
                let i = choose|i: int|
                    0 <= i < ts.len() && key_of(#[trigger] ts[i]) == k && of_kind(ts[i], kind) && session_key(ts[i]) == x;
                assert(u[i] == ts[i]);
            }
        }
        assert(sessions(u, k, kind) =~= sessions(ts, k, kind));
    }
    assert forall|x: Seq<char>| has_artifact(u, k, x) == has_artifact(ts, k, x) by {
        if has_artifact(u, k, x) {
            let (i, a) = choose|i: int, a: int|
                #![trigger u[i].artifact_refs[a]]
                0 <= i < u.len() && key_of(u[i]) == k && 0 <= a < u[i].artifact_refs.len() && u[i].artifact_refs[a]@ == x;
            let j = if i < n { i } else { i - n };
            assert(ts[j].artifact_refs[a]@ == x);
        }
        if has_artifact(ts, k, x) {
            let (i, a) = choose|i: int, a: int|
                #![trigger ts[i].artifact_refs[a]]
                0 <= i < ts.len() && key_of(ts[i]) == k && 0 <= a < ts[i].artifact_refs.len() && ts[i].artifact_refs[a]@ == x;
            assert(u[i] == ts[i]);
            assert(u[i].artifact_refs[a]@ == x);
        }
    }
    assert(artifacts(u, k) =~= artifacts(ts, k));
    lemma_first_verification_concat(ts, ts, k);
}

/// The lists of a learning view of the traces repeated are lists that a
/// view of the traces themselves may give.
pub proof fn lemma_doubled_traces_same_lists(
    ts: Seq<LearningTrace>,
    fb: SpaceFeedbackSummary,
    limit: usize,
    v: SpaceLearningView,
)
    requires
        view_ok(ts + ts, fb, limit, v),
    ensures
        stable_list_ok(ts, v.stable_paths@, if limit < 1 { 1int } else { limit as int }),
        residue_list_ok(ts, v.failure_residue@, if limit < 1 { 1int } else { limit as int }),
        regression_list_ok(ts, v.regression_candidates@, if limit < 1 { 1int } else { limit as int }),
{
    let u = ts + ts;
    let lim = if limit < 1 { 1int } else { limit as int };
    assert forall|k: LearningKey| #[trigger] is_group(u, k) == is_group(ts, k) by {
        lemma_doubled_group(ts, k);
    }
    assert forall|k: LearningKey, kind: SessionKind| #[trigger] count_of(u, k, kind) == count_of(ts, k, kind) by {
        lemma_doubled_group(ts, k);
    }
    assert forall|k: LearningKey| #[trigger] conflicts_of(u, k) == conflicts_of(ts, k) by {
        lemma_doubled_group(ts, k);
    }
    assert forall|k: LearningKey| #[trigger] artifacts(u, k) == artifacts(ts, k) by {
        lemma_doubled_group(ts, k);
    }
    assert forall|k: LearningKey| #[trigger] first_verification(u, k) == first_verification(ts, k) by {
        lemma_doubled_group(ts, k);
    }
    assert forall|k: LearningKey, r: Ranking| #[trigger] qualifies(u, k, r) == qualifies(ts, k, r) by {}
    assert forall|a: LearningKey, b: LearningKey, r: Ranking| #[trigger] ranks_before(u, a, b, r) == ranks_before(ts, a, b, r) by {}
    assert forall|ks: Seq<LearningKey>, r: Ranking| #[trigger] top_ranked(u, ks, r, lim) implies top_ranked(ts, ks, r, lim) by {
        assert forall|k: LearningKey| is_group(ts, k) && qualifies(ts, k, r) && !ks.contains(k) implies ks.len() == lim
            && forall|i: int| 0 <= i < ks.len() ==> ranks_before(ts, #[trigger] ks[i], k, r) by {
            assert(is_group(u, k) && qualifies(u, k, r));
            assert forall|i: int| 0 <= i < ks.len() implies ranks_before(ts, #[trigger] ks[i], k, r) by {
                assert(ranks_before(u, ks[i], k, r));
            }
        }
        assert forall|i: int, j: int| 0 <= i < j < ks.len() implies ranks_before(ts, ks[i], ks[j], r) by {
            assert(ranks_before(u, ks[i], ks[j], r));
        }
        assert forall|i: int| 0 <= i < ks.len() implies is_group(ts, #[trigger] ks[i]) && qualifies(ts, ks[i], r) by {
            assert(is_group(u, ks[i]) && qualifies(u, ks[i], r));
        }
    }
    let ks = choose|ks: Seq<LearningKey>|
        #[trigger] top_ranked(u, ks, Ranking::StablePath, lim) && ks.len() == v.stable_paths@.len() && forall|i: int|
            0 <= i < ks.len() ==> stable_matches(u, ks[i], #[trigger] v.stable_paths@[i]);
    assert forall|i: int| 0 <= i < ks.len() implies stable_matches(ts, ks[i], #[trigger] v.stable_paths@[i]) by {
        lemma_doubled_group(ts, ks[i]);
        assert(is_group(u, ks[i]));
    }
    assert(top_ranked(ts, ks, Ranking::StablePath, lim));
    let ks2 = choose|ks: Seq<LearningKey>|
        #[trigger] top_ranked(u, ks, Ranking::FailureResidue, lim) && ks.len() == v.failure_residue@.len() && forall|
            i: int,
        | 0 <= i < ks.len() ==> residue_matches(u, ks[i], #[trigger] v.failure_residue@[i]);
    assert forall|i: int| 0 <= i < ks2.len() implies residue_matches(ts, ks2[i], #[trigger] v.failure_residue@[i]) by {
        lemma_doubled_group(ts, ks2[i]);
        assert(is_group(u, ks2[i]));
    }
    assert(top_ranked(ts, ks2, Ranking::FailureResidue, lim));
    let ks3 = choose|ks: Seq<LearningKey>|
        #[trigger] top_ranked(u, ks, Ranking::RegressionCandidate, lim) && ks.len() == v.regression_candidates@.len()
            && forall|i: int| 0 <= i < ks.len() ==> regression_matches(u, ks[i], #[trigger] v.regression_candidates@[i]);
    assert forall|i: int| 0 <= i < ks3.len() implies regression_matches(ts, ks3[i], #[trigger] v.regression_candidates@[i]) by {
        lemma_doubled_group(ts, ks3[i]);
        assert(is_group(u, ks3[i]));
    }
    assert(top_ranked(ts, ks3, Ranking::RegressionCandidate, lim));
}


/// `out` lists, in the order `before`, the first `n` values that `member`
/// admits, or all of them when there are fewer.
pub open spec fn first_in_order<T>(out: Seq<T>, before: spec_fn(T, T) -> bool, member: spec_fn(T) -> bool, n: int) -> bool {
    &&& out.len() <= n
    &&& forall|i: int, j: int| 0 <= i < j < out.len() ==> before(out[i], out[j])
    &&& forall|i: int| 0 <= i < out.len() ==> member(#[trigger] out[i])
    &&& forall|x: T|
        member(x) && !out.contains(x) ==> out.len() == n && forall|i: int| 0 <= i < out.len() ==> before(#[trigger] out[i], x)
}

/// `before` is a strict total order.
pub open spec fn strict_total<T>(before: spec_fn(T, T) -> bool) -> bool {
    &&& forall|x: T| !(#[trigger] before(x, x))
    &&& forall|x: T, y: T| #[trigger] before(x, y) ==> !before(y, x)
    &&& forall|x: T, y: T| #![trigger before(x, y)] x == y || before(x, y) || before(y, x)
}

proof fn lemma_first_in_order_prefix<T>(
    a: Seq<T>,
    b: Seq<T>,
    before: spec_fn(T, T) -> bool,
    member: spec_fn(T) -> bool,
    n: int,
    m: int,
)
    requires
        strict_total(before),
        first_in_order(a, before, member, n),
        first_in_order(b, before, member, n),
        0 <= m <= a.len(),
        m <= b.len(),
    ensures
        forall|i: int| 0 <= i < m ==> a[i] == b[i],
    decreases m,
{
    if m > 0 {
        lemma_first_in_order_prefix(a, b, before, member, n, m - 1);
        let i = m - 1;
        if a[i] != b[i] {
            assert(before(a[i], b[i]) || before(b[i], a[i]));
            if before(a[i], b[i]) {
                assert(!b.contains(a[i])) by {
                    if b.contains(a[i]) {
                        let j = choose|j: int| 0 <= j < b.len() && b[j] == a[i];
                        if j < i {
                            assert(a[j] == b[j]);
                            assert(before(a[j], a[i]));
                        } else if j > i {
                            assert(before(b[i], b[j]));
                        }
                    }
                }
                assert(member(a[i]));
                assert(before(b[i], a[i]));
            } else {
                assert(!a.contains(b[i])) by {
                    if a.contains(b[i]) {
                        let j = choose|j: int| 0 <= j < a.len() && a[j] == b[i];
                        if j < i {
                            assert(a[j] == b[j]);
                            assert(before(b[j], b[i]));
                        } else if j > i {
                            assert(before(a[i], a[j]));
                        }
                    }
                }
                assert(member(b[i]));
                assert(before(a[i], b[i]));
            }
        }
    }
}

/// A list of the first values in a strict total order is unique.
pub proof fn lemma_first_in_order_unique<T>(
    a: Seq<T>,
    b: Seq<T>,
    before: spec_fn(T, T) -> bool,
    member: spec_fn(T) -> bool,
    n: int,
)
    requires
        strict_total(before),
        first_in_order(a, before, member, n),
        first_in_order(b, before, member, n),
    ensures
        a == b,
{
    let m = if a.len() < b.len() { a.len() as int } else { b.len() as int };
    lemma_first_in_order_prefix(a, b, before, member, n, m);
    if a.len() < b.len() {
        let x = b[m];
        assert(!a.contains(x)) by {
            if a.contains(x) {
                let j = choose|j: int| 0 <= j < a.len() && a[j] == x;
                assert(a[j] == b[j]);
                assert(before(b[j], b[m]));
            }
        }
        assert(member(x));
    } else if b.len() < a.len() {
        let x = a[m];
        assert(!b.contains(x)) by {
            if b.contains(x) {
                let j = choose|j: int| 0 <= j < b.len() && b[j] == x;
                assert(a[j] == b[j]);
                assert(before(a[j], a[m]));
            }
        }
        assert(member(x));
    }
    assert(a =~= b);
}

/// The ranked groups of a list are the same for any two lists that rank
/// them.
pub proof fn lemma_top_ranked_unique(ts: Seq<LearningTrace>, a: Seq<LearningKey>, b: Seq<LearningKey>, r: Ranking, limit: int)
    requires
        top_ranked(ts, a, r, limit),
        top_ranked(ts, b, r, limit),
    ensures
        a == b,
{
    let before = |x: LearningKey, y: LearningKey| ranks_before(ts, x, y, r);
    let member = |k: LearningKey| is_group(ts, k) && qualifies(ts, k, r);
    assert forall|x: LearningKey, y: LearningKey| #[trigger] before(x, y) ==> !before(y, x) by {
        lemma_rank_order(ts, x, y, x, r);
    }
    assert forall|x: LearningKey, y: LearningKey| #![trigger before(x, y)] x == y || before(x, y) || before(y, x) by {
        lemma_rank_order(ts, x, y, x, r);
    }
    assert forall|x: LearningKey| !(#[trigger] before(x, x)) by {
        lemma_rank_order(ts, x, x, x, r);
    }
    assert(first_in_order(a, before, member, limit));
    assert(first_in_order(b, before, member, limit));
    lemma_first_in_order_unique(a, b, before, member, limit);
}

/// The smallest strings of a pool are the same for any two lists that give
/// them.
pub proof fn lemma_smallest_first_unique(a: Seq<Seq<char>>, b: Seq<Seq<char>>, pool: Set<Seq<char>>, n: int)
    requires
        smallest_first(a, pool, n),
        smallest_first(b, pool, n),
    ensures
        a == b,
{
    let co = char_order();
    lemma_ranks_injective();
    let before = |x: Seq<char>, y: Seq<char>| lex_lt(x, y, co);
    let member = |x: Seq<char>| pool.contains(x);
    assert forall|x: Seq<char>, y: Seq<char>| #[trigger] before(x, y) ==> !before(y, x) by {
        if lex_lt(x, y, co) {
            lemma_lex_asymmetric(x, y, co);
        }
    }
    assert forall|x: Seq<char>, y: Seq<char>| #![trigger before(x, y)] x == y || before(x, y) || before(y, x) by {
        lemma_lex_total(x, y, co);
    }
    assert forall|x: Seq<char>| !(#[trigger] before(x, x)) by {
        lemma_lex_irreflexive(x, co);
    }
    assert(first_in_order(a, before, member, n));
    assert(first_in_order(b, before, member, n));
    lemma_first_in_order_unique(a, b, before, member, n);
}


/// Two stable-path records say the same.
pub open spec fn same_stable(a: LearningStablePath, b: LearningStablePath) -> bool {
    &&& a.capability@ == b.capability@
    &&& a.context@ == b.context@
    &&& a.compliant_success_sessions == b.compliant_success_sessions
    &&& a.artifact_ref_count == b.artifact_ref_count
}

/// Two failure-residue records say the same.
pub open spec fn same_residue(a: LearningFailureResidue, b: LearningFailureResidue) -> bool {
    &&& a.capability@ == b.capability@
    &&& a.context@ == b.context@
    &&& a.failed_sessions == b.failed_sessions
    &&& a.method_conflict_sessions == b.method_conflict_sessions
    &&& a.artifact_backed == b.artifact_backed
}

/// Two regression-candidate records say the same.
pub open spec fn same_regression(a: LearningRegressionCandidate, b: LearningRegressionCandidate) -> bool {
    &&& a.capability@ == b.capability@
    &&& a.context@ == b.context@
    &&& opt_view(a.trial_key) == opt_view(b.trial_key)
    &&& a.failed_sessions == b.failed_sessions
    &&& views(a.artifact_refs@) == views(b.artifact_refs@)
    &&& opt_view(a.verification) == opt_view(b.verification)
}

/// Repeating every trace gives the same three lists of the learning view,
/// record by record: counts are of distinct sessions and artifacts, not of
/// traces.
pub proof fn lemma_doubled_traces_same_view(
    ts: Seq<LearningTrace>,
    fb: SpaceFeedbackSummary,
    limit: usize,
    v: SpaceLearningView,
    w: SpaceLearningView,
)
    requires
        view_ok(ts, fb, limit, v),
        view_ok(ts + ts, fb, limit, w),
    ensures
        w.stable_paths@.len() == v.stable_paths@.len(),
        forall|i: int| 0 <= i < v.stable_paths@.len() ==> same_stable(#[trigger] v.stable_paths@[i], w.stable_paths@[i]),
        w.failure_residue@.len() == v.failure_residue@.len(),
        forall|i: int|
            0 <= i < v.failure_residue@.len() ==> same_residue(#[trigger] v.failure_residue@[i], w.failure_residue@[i]),
        w.regression_candidates@.len() == v.regression_candidates@.len(),
        forall|i: int|
            0 <= i < v.regression_candidates@.len() ==> same_regression(
                #[trigger] v.regression_candidates@[i],
                w.regression_candidates@[i],
            ),
{
    lemma_doubled_traces_same_lists(ts, fb, limit, w);
    let lim = if limit < 1 { 1int } else { limit as int };
    let (a, b) = (v.stable_paths@, w.stable_paths@);
    let ka = choose|ks: Seq<LearningKey>|
        #[trigger] top_ranked(ts, ks, Ranking::StablePath, lim) && ks.len() == a.len() && forall|i: int|
            0 <= i < ks.len() ==> stable_matches(ts, ks[i], #[trigger] a[i]);
    let kb = choose|ks: Seq<LearningKey>|
        #[trigger] top_ranked(ts, ks, Ranking::StablePath, lim) && ks.len() == b.len() && forall|i: int|
            0 <= i < ks.len() ==> stable_matches(ts, ks[i], #[trigger] b[i]);
    lemma_top_ranked_unique(ts, ka, kb, Ranking::StablePath, lim);
    assert forall|i: int| 0 <= i < a.len() implies same_stable(#[trigger] a[i], b[i]) by {
        assert(stable_matches(ts, ka[i], a[i]) && stable_matches(ts, kb[i], b[i]));
    }
    let (c, d) = (v.failure_residue@, w.failure_residue@);
    let kc = choose|ks: Seq<LearningKey>|
        #[trigger] top_ranked(ts, ks, Ranking::FailureResidue, lim) && ks.len() == c.len() && forall|i: int|
            0 <= i < ks.len() ==> residue_matches(ts, ks[i], #[trigger] c[i]);
    let kd = choose|ks: Seq<LearningKey>|
        #[trigger] top_ranked(ts, ks, Ranking::FailureResidue, lim) && ks.len() == d.len() && forall|i: int|
            0 <= i < ks.len() ==> residue_matches(ts, ks[i], #[trigger] d[i]);
    lemma_top_ranked_unique(ts, kc, kd, Ranking::FailureResidue, lim);
    assert forall|i: int| 0 <= i < c.len() implies same_residue(#[trigger] c[i], d[i]) by {
        assert(residue_matches(ts, kc[i], c[i]) && residue_matches(ts, kd[i], d[i]));
    }
    let (e, f) = (v.regression_candidates@, w.regression_candidates@);
    let ke = choose|ks: Seq<LearningKey>|
        #[trigger] top_ranked(ts, ks, Ranking::RegressionCandidate, lim) && ks.len() == e.len() && forall|i: int|
            0 <= i < ks.len() ==> regression_matches(ts, ks[i], #[trigger] e[i]);
    let kf = choose|ks: Seq<LearningKey>|
        #[trigger] top_ranked(ts, ks, Ranking::RegressionCandidate, lim) && ks.len() == f.len() && forall|i: int|
            0 <= i < ks.len() ==> regression_matches(ts, ks[i], #[trigger] f[i]);
    lemma_top_ranked_unique(ts, ke, kf, Ranking::RegressionCandidate, lim);
    assert forall|i: int| 0 <= i < e.len() implies same_regression(#[trigger] e[i], f[i]) by {
        assert(regression_matches(ts, ke[i], e[i]) && regression_matches(ts, kf[i], f[i]));
        lemma_smallest_first_unique(
            views(e[i].artifact_refs@),
            views(f[i].artifact_refs@),
            artifacts(ts, ke[i]),
            LISTED_ARTIFACTS as int,
        );
    }
}


/// How the three lists of a learning view are ordered and what their
/// records hold: stable paths come by compliant successes, descending, each
/// with at least three; failure residue by failed sessions, descending, and
/// among equal failures by method-conflict sessions, descending, each with
/// two failures or a method conflict; regression candidates by failed
/// sessions, descending, each with two failures and one to five artifacts.
pub proof fn lemma_view_lists_ordered(ts: Seq<LearningTrace>, fb: SpaceFeedbackSummary, limit: usize, v: SpaceLearningView)
    requires
        view_ok(ts, fb, limit, v),
    ensures
        forall|i: int, j: int|
            0 <= i < j < v.stable_paths@.len() ==> v.stable_paths@[i].compliant_success_sessions
                >= v.stable_paths@[j].compliant_success_sessions,
        forall|i: int| 0 <= i < v.stable_paths@.len() ==> (#[trigger] v.stable_paths@[i]).compliant_success_sessions >= 3,
        forall|i: int, j: int|
            #![trigger v.failure_residue@[i], v.failure_residue@[j]]
            0 <= i < j < v.failure_residue@.len() ==> v.failure_residue@[i].failed_sessions
                > v.failure_residue@[j].failed_sessions || (v.failure_residue@[i].failed_sessions
                == v.failure_residue@[j].failed_sessions && v.failure_residue@[i].method_conflict_sessions
                >= v.failure_residue@[j].method_conflict_sessions),
        forall|i: int|
            0 <= i < v.failure_residue@.len() ==> (#[trigger] v.failure_residue@[i]).failed_sessions >= 2
                || v.failure_residue@[i].method_conflict_sessions > 0,
        forall|i: int, j: int|
            0 <= i < j < v.regression_candidates@.len() ==> v.regression_candidates@[i].failed_sessions
                >= v.regression_candidates@[j].failed_sessions,
        forall|i: int|
            0 <= i < v.regression_candidates@.len() ==> (#[trigger] v.regression_candidates@[i]).failed_sessions >= 2
                && 1 <= v.regression_candidates@[i].artifact_refs@.len() <= 5,
{
    let lim = if limit < 1 { 1int } else { limit as int };
    let a = v.stable_paths@;
    let ka = choose|ks: Seq<LearningKey>|
        #[trigger] top_ranked(ts, ks, Ranking::StablePath, lim) && ks.len() == a.len() && forall|i: int|
            0 <= i < ks.len() ==> stable_matches(ts, ks[i], #[trigger] a[i]);
    assert forall|i: int, j: int| 0 <= i < j < a.len() implies a[i].compliant_success_sessions
        >= a[j].compliant_success_sessions by {
        assert(ranks_before(ts, ka[i], ka[j], Ranking::StablePath));
        assert(stable_matches(ts, ka[i], a[i]) && stable_matches(ts, ka[j], a[j]));
    }
    assert forall|i: int| 0 <= i < a.len() implies (#[trigger] a[i]).compliant_success_sessions >= 3 by {
        assert(stable_matches(ts, ka[i], a[i]));
        assert(qualifies(ts, ka[i], Ranking::StablePath));
    }
    let c = v.failure_residue@;
    let kc = choose|ks: Seq<LearningKey>|
        #[trigger] top_ranked(ts, ks, Ranking::FailureResidue, lim) && ks.len() == c.len() && forall|i: int|
            0 <= i < ks.len() ==> residue_matches(ts, ks[i], #[trigger] c[i]);
    assert forall|i: int, j: int|
        #![trigger c[i], c[j]]
        0 <= i < j < c.len() implies c[i].failed_sessions > c[j].failed_sessions || (c[i].failed_sessions
            == c[j].failed_sessions && c[i].method_conflict_sessions >= c[j].method_conflict_sessions) by {
        assert(ranks_before(ts, kc[i], kc[j], Ranking::FailureResidue));
        assert(residue_matches(ts, kc[i], c[i]) && residue_matches(ts, kc[j], c[j]));
    }
    assert forall|i: int| 0 <= i < c.len() implies (#[trigger] c[i]).failed_sessions >= 2
        || c[i].method_conflict_sessions > 0 by {
        assert(residue_matches(ts, kc[i], c[i]));
        assert(qualifies(ts, kc[i], Ranking::FailureResidue));
    }
    let e = v.regression_candidates@;
    let ke = choose|ks: Seq<LearningKey>|
        #[trigger] top_ranked(ts, ks, Ranking::RegressionCandidate, lim) && ks.len() == e.len() && forall|i: int|
            0 <= i < ks.len() ==> regression_matches(ts, ks[i], #[trigger] e[i]);
    assert forall|i: int, j: int| 0 <= i < j < e.len() implies e[i].failed_sessions >= e[j].failed_sessions by {
        assert(ranks_before(ts, ke[i], ke[j], Ranking::RegressionCandidate));
        assert(regression_matches(ts, ke[i], e[i]) && regression_matches(ts, ke[j], e[j]));
    }
    assert forall|i: int| 0 <= i < e.len() implies (#[trigger] e[i]).failed_sessions >= 2 && 1 <= e[i].artifact_refs@.len()
        <= 5 by {
        assert(regression_matches(ts, ke[i], e[i]));
        assert(qualifies(ts, ke[i], Ranking::RegressionCandidate));
        let pool = artifacts(ts, ke[i]);
        let out = views(e[i].artifact_refs@);
        assert(smallest_first(out, pool, LISTED_ARTIFACTS as int));
        assert(out.len() == e[i].artifact_refs@.len());
        let x = pool.choose();
        assert(pool.contains(x));
        if out.len() == 0 {
            assert(!out.contains(x));
        }
    }
}

/// The learning status, by the debt score in hundredths: `quiet` without
/// traces or feedback; otherwise `blocked` exactly when the score is at
/// least 70 and there is failure residue; `compressed` when there are
/// stable paths and the score is below 35; `converging` with stable paths,
/// regression candidates or positive feedback; `accumulating` otherwise.
pub proof fn lemma_learning_status_cases(
    trace_count: nat,
    stable_count: nat,
    residue_count: nat,
    regression_count: nat,
    score: nat,
    positive: nat,
    negative: nat,
)
    ensures
        ({
            let st = spec_learning_status(
                trace_count,
                stable_count,
                residue_count,
                regression_count,
                debt_level(score),
                positive,
                negative,
            );
            let quiet = trace_count == 0 && positive == 0 && negative == 0;
            let blocked = !quiet && score >= 70 && residue_count > 0;
            let compressed = !quiet && !blocked && stable_count > 0 && score < 35;
            let converging = !quiet && !blocked && !compressed && (stable_count > 0 || regression_count > 0
                || positive > 0);
            &&& st == "quiet"@ <==> quiet
            &&& st == "blocked"@ <==> blocked
            &&& st == "compressed"@ <==> compressed
            &&& st == "converging"@ <==> converging
            &&& st == "accumulating"@ <==> (!quiet && !blocked && !compressed && !converging)
        }),
{
    reveal_strlit("quiet");
    reveal_strlit("blocked");
    reveal_strlit("compressed");
    reveal_strlit("converging");
    reveal_strlit("accumulating");
    reveal_strlit("high");
    reveal_strlit("medium");
    reveal_strlit("low");
    assert("high"@.len() == 4 && "medium"@.len() == 6 && "low"@.len() == 3);
    assert("quiet"@.len() == 5 && "blocked"@.len() == 7 && "compressed"@.len() == 10);
    assert("converging"@.len() == 10 && "accumulating"@.len() == 12);
    assert("compressed"@[2] != "converging"@[2]);
}


/// The weights of the debt score, in hundredths: method conflicts alone
/// give 35 (medium debt), unverified failures alone 30, conflicting outcomes
/// alone 20, negative feedback alone 15 (both low); nothing gives 0; each
/// contribution only raises the score, which never exceeds 100; method
/// conflicts with unverified failures alone are medium debt, and with
/// conflicting outcomes too high debt.
pub proof fn lemma_debt_weights(m: nat, u: nat, c: nat, patch: nat, neg: nat)
    ensures
        debt_score(0, 0, 0, patch, 0) == 0,
        m > 0 ==> debt_score(m, 0, 0, patch, 0) == 35,
        u > 0 && patch < 8 ==> debt_score(0, u, 0, patch, 0) == 30,
        u > 0 && patch >= 8 ==> debt_score(0, u, 0, patch, 0) == 40,
        c > 0 ==> debt_score(0, 0, c, patch, 0) == 20,
        neg > 0 ==> debt_score(0, 0, 0, patch, neg) == 15,
        debt_score(m, u, c, patch, neg) <= 100,
        debt_score(m, u, c, patch, neg) >= debt_score(0, u, c, patch, neg),
        debt_score(m, u, c, patch, neg) >= debt_score(m, 0, c, patch, neg),
        debt_score(m, u, c, patch, neg) >= debt_score(m, u, 0, patch, neg),
        debt_score(m, u, c, patch, neg) >= debt_score(m, u, c, patch, 0),
        m > 0 && u > 0 && c > 0 ==> debt_level(debt_score(m, u, c, patch, neg)) == "high"@,
        m > 0 && u > 0 && c == 0 && neg == 0 && patch < 8 ==> debt_level(debt_score(m, u, c, patch, neg))
            == "medium"@,
        m > 0 ==> debt_score(m, u, c, patch, neg) >= 35,
{
}

} // verus!
