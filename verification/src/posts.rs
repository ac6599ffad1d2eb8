//! Signal posts: short recommendations, warnings and notes that agents leave
//! for each other, carried as traces whose capability names the kind of the
//! post, and the summary that groups them by kind and message.

use vstd::prelude::*;

use crate::learning::{push_unique, smallest_first, smallest_strings, str_less};
use crate::text::{
    char_order, concat_str, hex_string, lemma_lex_asymmetric, lemma_lex_irreflexive, lemma_lex_total,
    lemma_lex_transitive, lemma_ranks_injective, lex_lt, spec_hex, str_eq, str_skip, str_starts_with, views,
};

verus! {

/// The capability prefix that marks a trace as a signal post.
pub const SIGNAL_CAPABILITY_PREFIX: &'static str = "urn:thronglets:signal:";

/// What a signal post asks of its readers.
#[derive(Debug, Clone, Copy, PartialEq, Eq, Structural, Hash)]
pub enum SignalPostKind {
    Recommend,
    Avoid,
    Watch,
    Info,
}

impl SignalPostKind {
    /// The kind's name.
    pub open spec fn name(self) -> Seq<char> {
        match self {
            SignalPostKind::Recommend => "recommend"@,
            SignalPostKind::Avoid => "avoid"@,
            SignalPostKind::Watch => "watch"@,
            SignalPostKind::Info => "info"@,
        }
    }

    /// The kind named `value`, if any.
    pub open spec fn named(value: Seq<char>) -> Option<SignalPostKind> {
        if value == "recommend"@ {
            Some(SignalPostKind::Recommend)
        } else if value == "avoid"@ {
            Some(SignalPostKind::Avoid)
        } else if value == "watch"@ {
            Some(SignalPostKind::Watch)
        } else if value == "info"@ {
            Some(SignalPostKind::Info)
        } else {
            None
        }
    }

    /// The capability of posts of this kind: the signal prefix followed by
    /// the kind's name.
    pub open spec fn spec_capability(self) -> Seq<char> {
        SIGNAL_CAPABILITY_PREFIX@ + self.name()
    }

    /// The kind of the posts whose capability is `capability`, if any.
    pub open spec fn of_capability(capability: Seq<char>) -> Option<SignalPostKind> {
        if SIGNAL_CAPABILITY_PREFIX@.is_prefix_of(capability) {
            SignalPostKind::named(capability.skip(SIGNAL_CAPABILITY_PREFIX@.len() as int))
        } else {
            None
        }
    }

    /// The kind's name.
    pub fn as_str(self) -> (s: &'static str)
        ensures
            s@ == self.name(),
    {
        match self {
            SignalPostKind::Recommend => "recommend",
            SignalPostKind::Avoid => "avoid",
            SignalPostKind::Watch => "watch",
            SignalPostKind::Info => "info",
        }
    }

    /// The capability of posts of this kind.
    pub fn capability(self) -> (s: String)
        ensures
            s@ == self.spec_capability(),
    {
        concat_str(SIGNAL_CAPABILITY_PREFIX.to_owned(), self.as_str())
    }

    /// The kind named `value`; `None` for any other text.
    pub fn parse(value: &str) -> (kind: Option<SignalPostKind>)
        ensures
            kind == SignalPostKind::named(value@),
    {
        if str_eq(value, "recommend") {
            Some(SignalPostKind::Recommend)
        } else if str_eq(value, "avoid") {
            Some(SignalPostKind::Avoid)
        } else if str_eq(value, "watch") {
            Some(SignalPostKind::Watch)
        } else if str_eq(value, "info") {
            Some(SignalPostKind::Info)
        } else {
            None
        }
    }

    /// The kind whose capability is `capability`: the signal prefix followed
    /// by a kind's name.
    pub fn from_capability(capability: &str) -> (kind: Option<SignalPostKind>)
        ensures
            kind == SignalPostKind::of_capability(capability@),
    {
        if !str_starts_with(capability, SIGNAL_CAPABILITY_PREFIX) {
            return None;
        }
        let rest = str_skip(capability, SIGNAL_CAPABILITY_PREFIX.unicode_len());
        SignalPostKind::parse(rest.as_str())
    }
}

/// Whether `capability` marks a signal post.
pub fn is_signal_capability(capability: &str) -> (b: bool)
    ensures
        b == SIGNAL_CAPABILITY_PREFIX@.is_prefix_of(capability@),
{
    str_starts_with(capability, SIGNAL_CAPABILITY_PREFIX)
}

/// Who posted: the node's public key in hex, and the session after a colon
/// where there is one.
pub open spec fn spec_source_key(node_pubkey: Seq<u8>, session_id: Option<Seq<char>>) -> Seq<char> {
    match session_id {
        Some(s) => spec_hex(node_pubkey) + ":"@ + s,
        None => spec_hex(node_pubkey),
    }
}

/// The key that tells the sources of signal posts apart.
pub fn source_key(node_pubkey: &[u8; 32], session_id: Option<&str>) -> (key: String)
    ensures
        key@ == spec_source_key(node_pubkey@, match session_id {
            Some(s) => Some(s@),
            None => None,
        }),
{
    let node = hex_string(node_pubkey.as_slice());
    match session_id {
        Some(s) => concat_str(concat_str(node, ":"), s),
        None => node,
    }
}

/// How many contexts a summary lists.
pub const MAX_CONTEXTS: usize = 3;

/// A signal post as the summary reads it: its kind, context and message,
/// when it was posted, the key of who posted it, and how close its context
/// is to the query, in hundredths.
pub struct SignalPost {
    pub kind: SignalPostKind,
    pub context: String,
    pub message: String,
    pub timestamp: u64,
    pub source: String,
    pub similarity: u32,
}

/// The summary of all posts of one kind with one message.
pub struct SignalQueryResult {
    /// The kind's name.
    pub kind: String,
    pub message: String,
    /// The best context similarity among the posts, in hundredths.
    pub context_similarity: u32,
    pub total_posts: u64,
    /// The number of distinct sources.
    pub source_count: u32,
    pub latest_timestamp: u64,
    /// The first few distinct non-empty contexts, in order.
    pub contexts: Vec<String>,
}

/// Posts are grouped by kind and message.
pub type SignalKey = (SignalPostKind, Seq<char>);

pub open spec fn post_key(p: SignalPost) -> SignalKey {
    (p.kind, p.message@)
}

/// The number of posts in group `k`.
pub open spec fn post_count(ps: Seq<SignalPost>, k: SignalKey) -> nat
    decreases ps.len(),
{
    if ps.len() == 0 {
        0
    } else {
        post_count(ps.drop_last(), k) + if post_key(ps.last()) == k { 1nat } else { 0nat }
    }
}

/// The latest timestamp in group `k`; zero for no posts.
pub open spec fn latest_of(ps: Seq<SignalPost>, k: SignalKey) -> u64
    decreases ps.len(),
{
    if ps.len() == 0 {
        0
    } else {
        let rest = latest_of(ps.drop_last(), k);
        if post_key(ps.last()) == k && ps.last().timestamp > rest {
            ps.last().timestamp
        } else {
            rest
        }
    }
}

/// The best similarity in group `k`; zero for no posts.
pub open spec fn best_of(ps: Seq<SignalPost>, k: SignalKey) -> u32
    decreases ps.len(),
{
    if ps.len() == 0 {
        0
    } else {
        let rest = best_of(ps.drop_last(), k);
        if post_key(ps.last()) == k && ps.last().similarity > rest {
            ps.last().similarity
        } else {
            rest
        }
    }
}

/// Some post of group `k` came from source `s`.
pub open spec fn posted_by(ps: Seq<SignalPost>, k: SignalKey, s: Seq<char>) -> bool {
    exists|i: int| 0 <= i < ps.len() && post_key(#[trigger] ps[i]) == k && ps[i].source@ == s
}

/// The sources of group `k`.
pub open spec fn sources_of(ps: Seq<SignalPost>, k: SignalKey) -> Set<Seq<char>> {
    Set::new(|s: Seq<char>| posted_by(ps, k, s))
}

/// Some post of group `k` has the non-empty context `c`.
pub open spec fn posted_in(ps: Seq<SignalPost>, k: SignalKey, c: Seq<char>) -> bool {
    c.len() > 0 && exists|i: int| 0 <= i < ps.len() && post_key(#[trigger] ps[i]) == k && ps[i].context@ == c
}

/// The non-empty contexts of group `k`.
pub open spec fn contexts_of(ps: Seq<SignalPost>, k: SignalKey) -> Set<Seq<char>> {
    Set::new(|c: Seq<char>| posted_in(ps, k, c))
}

/// `r` is the summary of group `k`.
pub open spec fn summarizes(ps: Seq<SignalPost>, k: SignalKey, r: SignalQueryResult) -> bool {
    &&& r.kind@ == k.0.name()
    &&& r.message@ == k.1
    &&& r.context_similarity == best_of(ps, k)
    &&& r.total_posts == post_count(ps, k)
    &&& r.source_count == sources_of(ps, k).len() as u32
    &&& r.latest_timestamp == latest_of(ps, k)
    &&& smallest_first(views(r.contexts@), contexts_of(ps, k), MAX_CONTEXTS as int)
}

/// Whether two posts belong to the same group.
pub fn same_signal(a: &SignalPost, b: &SignalPost) -> (r: bool)
    ensures
        r == (post_key(*a) == post_key(*b)),
{
    a.kind == b.kind && a.message == b.message
}

proof fn lemma_take_last(ps: Seq<SignalPost>, i: int)
    requires
        0 <= i < ps.len(),
    ensures
        ps.take(i + 1).drop_last() == ps.take(i),
        ps.take(i + 1).last() == ps[i],
{
    assert(ps.take(i + 1).drop_last() =~= ps.take(i));
}

proof fn lemma_sources_step(ps: Seq<SignalPost>, i: int, k: SignalKey)
    requires
        0 <= i < ps.len(),
    ensures
        sources_of(ps.take(i + 1), k) == if post_key(ps[i]) == k {
            sources_of(ps.take(i), k).insert(ps[i].source@)
        } else {
            sources_of(ps.take(i), k)
        },
        contexts_of(ps.take(i + 1), k) == if post_key(ps[i]) == k && ps[i].context@.len() > 0 {
            contexts_of(ps.take(i), k).insert(ps[i].context@)
        } else {
            contexts_of(ps.take(i), k)
        },
{
    let pre = ps.take(i);
    let post = ps.take(i + 1);
    assert(post[i] == ps[i]);
    assert forall|q: int| 0 <= q < i implies #[trigger] post[q] == pre[q] by {}
    let add = post_key(ps[i]) == k;
    let es = if add { sources_of(pre, k).insert(ps[i].source@) } else { sources_of(pre, k) };
    assert forall|x: Seq<char>| #[trigger] sources_of(post, k).contains(x) == es.contains(x) by {
        if posted_by(post, k, x) {
            let q = choose|q: int| 0 <= q < post.len() && post_key(#[trigger] post[q]) == k && post[q].source@ == x;
            if q < i {
                assert(posted_by(pre, k, x));
            }
        }
        if posted_by(pre, k, x) {
            let q = choose|q: int| 0 <= q < pre.len() && post_key(#[trigger] pre[q]) == k && pre[q].source@ == x;
            assert(post[q] == pre[q]);
            assert(posted_by(post, k, x));
        }
        if add && x == ps[i].source@ {
            assert(posted_by(post, k, x));
        }
    }
    assert(sources_of(post, k) =~= es);
    let addc = add && ps[i].context@.len() > 0;
    let ec = if addc { contexts_of(pre, k).insert(ps[i].context@) } else { contexts_of(pre, k) };
    assert forall|x: Seq<char>| #[trigger] contexts_of(post, k).contains(x) == ec.contains(x) by {
        if posted_in(post, k, x) {
            let q = choose|q: int| 0 <= q < post.len() && post_key(#[trigger] post[q]) == k && post[q].context@ == x;
            if q < i {
                assert(posted_in(pre, k, x));
            }
        }
        if posted_in(pre, k, x) {
            let q = choose|q: int| 0 <= q < pre.len() && post_key(#[trigger] pre[q]) == k && pre[q].context@ == x;
            assert(post[q] == pre[q]);
            assert(posted_in(post, k, x));
        }
        if addc && x == ps[i].context@ {
            assert(posted_in(post, k, x));
        }
    }
    assert(contexts_of(post, k) =~= ec);
}

/// The summary of the group of `ps[rep]`.
pub fn summarize_group(ps: &[SignalPost], rep: usize) -> (r: SignalQueryResult)
    requires
        rep < ps.len(),
    ensures
        summarizes(ps@, post_key(ps@[rep as int]), r),
{
    let ghost k = post_key(ps@[rep as int]);
    let mut total: u64 = 0;
    let mut latest: u64 = 0;
    let mut best: u32 = 0;
    let mut sources: Vec<String> = Vec::new();
    let mut contexts: Vec<String> = Vec::new();
    let mut i: usize = 0;
    proof {
        assert(sources_of(ps@.take(0), k) =~= Set::empty());
        assert(contexts_of(ps@.take(0), k) =~= Set::empty());
        assert(views(sources@).to_set() =~= Set::empty());
        assert(views(contexts@).to_set() =~= Set::empty());
        assert(ps@.take(0).len() == 0);
    }
    while i < ps.len()
        invariant
            rep < ps.len(),
            k == post_key(ps@[rep as int]),
            i <= ps.len(),
            total <= i,
            total == post_count(ps@.take(i as int), k),
            latest == latest_of(ps@.take(i as int), k),
            best == best_of(ps@.take(i as int), k),
            views(sources@).no_duplicates(),
            views(sources@).to_set() == sources_of(ps@.take(i as int), k),
            views(contexts@).no_duplicates(),
            views(contexts@).to_set() == contexts_of(ps@.take(i as int), k),
        decreases ps.len() - i,
    {
        proof {
            lemma_take_last(ps@, i as int);
            lemma_sources_step(ps@, i as int, k);
        }
        if same_signal(&ps[i], &ps[rep]) {
            total = total + 1;
            if ps[i].timestamp > latest {
                latest = ps[i].timestamp;
            }
            if ps[i].similarity > best {
                best = ps[i].similarity;
            }
            let src = ps[i].source.clone();
            push_unique(&mut sources, src);
            if !ps[i].context.as_str().is_empty() {
                let ctx = ps[i].context.clone();
                push_unique(&mut contexts, ctx);
            }
        }
        i = i + 1;
    }
    proof {
        assert(ps@.take(ps.len() as int) =~= ps@);
        views(sources@).unique_seq_to_set();
    }
    let listed = smallest_strings(&contexts, MAX_CONTEXTS);
    let kind = ps[rep].kind.as_str().to_owned();
    let message = ps[rep].message.clone();
    SignalQueryResult {
        kind,
        message,
        context_similarity: best,
        total_posts: total,
        source_count: sources.len() as u32,
        latest_timestamp: latest,
        contexts: listed,
    }
}

/// Kinds are told apart by their names.
pub proof fn lemma_name_injective(a: SignalPostKind, b: SignalPostKind)
    ensures
        a.name() == b.name() ==> a == b,
{
    reveal_strlit("recommend");
    reveal_strlit("avoid");
    reveal_strlit("watch");
    reveal_strlit("info");
    if a.name() == b.name() && a != b {
        assert(a.name().len() == b.name().len());
        assert(a.name()[0] == b.name()[0]);
    }
}

/// Some post belongs to group `k`.
pub open spec fn is_signal_group(ps: Seq<SignalPost>, k: SignalKey) -> bool {
    exists|i: int| 0 <= i < ps.len() && post_key(#[trigger] ps[i]) == k
}

/// `r` carries the kind and message of group `k`.
pub open spec fn names(r: SignalQueryResult, k: SignalKey) -> bool {
    r.kind@ == k.0.name() && r.message@ == k.1
}

/// Two summaries differ in kind or message.
pub open spec fn distinct_names(a: SignalQueryResult, b: SignalQueryResult) -> bool {
    a.kind@ != b.kind@ || a.message@ != b.message@
}

/// Some summary in `rs` carries group `k`.
pub open spec fn listed(rs: Seq<SignalQueryResult>, k: SignalKey) -> bool {
    exists|j: int| 0 <= j < rs.len() && names(#[trigger] rs[j], k)
}

/// `r` is the summary of the group of one of the first `n` posts.
pub open spec fn summarizes_within(ps: Seq<SignalPost>, r: SignalQueryResult, n: int) -> bool {
    exists|q: int| 0 <= q < n && summarizes(ps, post_key(#[trigger] ps[q]), r)
}

/// `t` holds the summary of every group once.
pub open spec fn table_ok(ps: Seq<SignalPost>, t: Seq<SignalQueryResult>) -> bool {
    &&& forall|j: int| 0 <= j < t.len() ==> summarizes_within(ps, #[trigger] t[j], ps.len() as int)
    &&& forall|a: int, b: int| 0 <= a < b < t.len() ==> distinct_names(#[trigger] t[a], #[trigger] t[b])
    &&& forall|q: int| 0 <= q < ps.len() ==> listed(t, post_key(#[trigger] ps[q]))
}

proof fn lemma_table_push(ps: Seq<SignalPost>, t: Seq<SignalQueryResult>, i: int, r: SignalQueryResult)
    requires
        0 <= i < ps.len(),
        forall|j: int| 0 <= j < t.len() ==> summarizes_within(ps, #[trigger] t[j], i),
        forall|a: int, b: int| 0 <= a < b < t.len() ==> distinct_names(#[trigger] t[a], #[trigger] t[b]),
        forall|q: int| 0 <= q < i ==> listed(t, post_key(#[trigger] ps[q])),
        forall|q: int| 0 <= q < i ==> post_key(#[trigger] ps[q]) != post_key(ps[i]),
        summarizes(ps, post_key(ps[i]), r),
    ensures
        forall|j: int| 0 <= j < t.push(r).len() ==> summarizes_within(ps, #[trigger] t.push(r)[j], i + 1),
        forall|a: int, b: int|
            0 <= a < b < t.push(r).len() ==> distinct_names(#[trigger] t.push(r)[a], #[trigger] t.push(r)[b]),
        forall|q: int| 0 <= q < i + 1 ==> listed(t.push(r), post_key(#[trigger] ps[q])),
{
    let t2 = t.push(r);
    assert forall|j: int| 0 <= j < t2.len() implies summarizes_within(ps, #[trigger] t2[j], i + 1) by {
        if j < t.len() {
            assert(t2[j] == t[j]);
            assert(summarizes_within(ps, t[j], i));
            let q = choose|q: int| 0 <= q < i && summarizes(ps, post_key(#[trigger] ps[q]), t[j]);
            assert(summarizes(ps, post_key(ps[q]), t2[j]));
        } else {
            assert(t2[j] == r);
            assert(summarizes(ps, post_key(ps[i]), t2[j]));
        }
    }
    assert forall|a: int, b: int| 0 <= a < b < t2.len() implies distinct_names(#[trigger] t2[a], #[trigger] t2[b]) by {
        if b < t.len() {
            assert(t2[a] == t[a] && t2[b] == t[b]);
        } else {
            assert(t2[a] == t[a] && t2[b] == r);
            assert(summarizes_within(ps, t[a], i));
            let q = choose|q: int| 0 <= q < i && summarizes(ps, post_key(#[trigger] ps[q]), t[a]);
            if !distinct_names(t[a], r) {
                lemma_name_injective(ps[q].kind, ps[i].kind);
                assert(post_key(ps[q]) == post_key(ps[i]));
            }
        }
    }
    assert forall|q: int| 0 <= q < i + 1 implies listed(t2, post_key(#[trigger] ps[q])) by {
        if q < i {
            let j = choose|j: int| 0 <= j < t.len() && names(#[trigger] t[j], post_key(ps[q]));
            assert(t2[j] == t[j]);
        } else {
            assert(names(t2[t.len() as int], post_key(ps[q])));
        }
    }
}

/// The summary of every group, in order of first appearance.
pub fn summary_table(ps: &[SignalPost]) -> (t: Vec<SignalQueryResult>)
    ensures
        table_ok(ps@, t@),
{
    let mut t: Vec<SignalQueryResult> = Vec::new();
    let mut i: usize = 0;
    while i < ps.len()
        invariant
            i <= ps.len(),
            forall|j: int| 0 <= j < t@.len() ==> summarizes_within(ps@, #[trigger] t@[j], i as int),
            forall|a: int, b: int| 0 <= a < b < t@.len() ==> distinct_names(#[trigger] t@[a], #[trigger] t@[b]),
            forall|q: int| 0 <= q < i ==> listed(t@, post_key(#[trigger] ps@[q])),
        decreases ps.len() - i,
    {
        let mut j: usize = 0;
        let mut seen = false;
        while j < i
            invariant_except_break
                !seen,
            invariant
                i < ps.len(),
                j <= i,
                forall|q: int| 0 <= q < j ==> post_key(#[trigger] ps@[q]) != post_key(ps@[i as int]),
            ensures
                seen ==> exists|q: int| 0 <= q < i && post_key(#[trigger] ps@[q]) == post_key(ps@[i as int]),
                !seen ==> forall|q: int| 0 <= q < i ==> post_key(#[trigger] ps@[q]) != post_key(ps@[i as int]),
            decreases i - j,
        {
            if same_signal(&ps[j], &ps[i]) {
                seen = true;
                break;
            }
            j = j + 1;
        }
        if !seen {
            let r = summarize_group(ps, i);
            proof {
                lemma_table_push(ps@, t@, i as int, r);
            }
            t.push(r);
        } else {
            proof {
                let q0 = choose|q: int| 0 <= q < i && post_key(#[trigger] ps@[q]) == post_key(ps@[i as int]);
                assert(listed(t@, post_key(ps@[q0])));
                assert forall|j2: int| 0 <= j2 < t@.len() implies summarizes_within(ps@, #[trigger] t@[j2], i + 1) by {
                    let q = choose|q: int| 0 <= q < i && summarizes(ps@, post_key(#[trigger] ps@[q]), t@[j2]);
                }
            }
        }
        i = i + 1;
    }
    t
}

/// What a summary is ranked by: similarity, sources, posts, latest post,
/// kind and message.
pub type SignalRank = (u32, u32, int, u64, Seq<char>, Seq<char>);

pub open spec fn rank_of(r: SignalQueryResult) -> SignalRank {
    (r.context_similarity, r.source_count, r.total_posts as int, r.latest_timestamp, r.kind@, r.message@)
}

/// The rank of group `k`.
pub open spec fn group_rank(ps: Seq<SignalPost>, k: SignalKey) -> SignalRank {
    (best_of(ps, k), sources_of(ps, k).len() as u32, post_count(ps, k) as int, latest_of(ps, k), k.0.name(), k.1)
}

/// `a` is listed before `b`: closer context first, then more sources, more
/// posts and a later post; equal ranks go by kind and message.
pub open spec fn rank_before(a: SignalRank, b: SignalRank) -> bool {
    ||| a.0 > b.0
    ||| a.0 == b.0 && a.1 > b.1
    ||| a.0 == b.0 && a.1 == b.1 && a.2 > b.2
    ||| a.0 == b.0 && a.1 == b.1 && a.2 == b.2 && a.3 > b.3
    ||| a.0 == b.0 && a.1 == b.1 && a.2 == b.2 && a.3 == b.3 && lex_lt(a.4, b.4, char_order())
    ||| a.0 == b.0 && a.1 == b.1 && a.2 == b.2 && a.3 == b.3 && a.4 == b.4 && lex_lt(a.5, b.5, char_order())
}

pub open spec fn result_before(a: SignalQueryResult, b: SignalQueryResult) -> bool {
    rank_before(rank_of(a), rank_of(b))
}

/// The ranking is a strict order, total on summaries of distinct groups.
pub proof fn lemma_rank_order(a: SignalRank, b: SignalRank, c: SignalRank)
    ensures
        !rank_before(a, a),
        rank_before(a, b) ==> !rank_before(b, a),
        rank_before(a, b) && rank_before(b, c) ==> rank_before(a, c),
        (a.4 != b.4 || a.5 != b.5) ==> rank_before(a, b) || rank_before(b, a),
{
    let co = char_order();
    lemma_ranks_injective();
    lemma_lex_irreflexive(a.4, co);
    lemma_lex_irreflexive(a.5, co);
    lemma_lex_total(a.4, b.4, co);
    lemma_lex_total(a.5, b.5, co);
    if lex_lt(a.4, b.4, co) {
        lemma_lex_asymmetric(a.4, b.4, co);
    }
    if lex_lt(a.5, b.5, co) {
        lemma_lex_asymmetric(a.5, b.5, co);
    }
    if lex_lt(a.4, b.4, co) && lex_lt(b.4, c.4, co) {
        lemma_lex_transitive(a.4, b.4, c.4, co);
    }
    if lex_lt(a.5, b.5, co) && lex_lt(b.5, c.5, co) {
        lemma_lex_transitive(a.5, b.5, c.5, co);
    }
}

/// Whether `a` is listed before `b`.
pub fn ranks_first(a: &SignalQueryResult, b: &SignalQueryResult) -> (r: bool)
    ensures
        r == result_before(*a, *b),
{
    proof {
        lemma_ranks_injective();
        lemma_lex_irreflexive(a.kind@, char_order());
        lemma_lex_irreflexive(a.message@, char_order());
        lemma_lex_total(a.kind@, b.kind@, char_order());
    }
    if a.context_similarity != b.context_similarity {
        return a.context_similarity > b.context_similarity;
    }
    if a.source_count != b.source_count {
        return a.source_count > b.source_count;
    }
    if a.total_posts != b.total_posts {
        return a.total_posts > b.total_posts;
    }
    if a.latest_timestamp != b.latest_timestamp {
        return a.latest_timestamp > b.latest_timestamp;
    }
    if str_less(&a.kind, &b.kind) {
        return true;
    }
    if a.kind != b.kind {
        return false;
    }
    str_less(&a.message, &b.message)
}

/// The invariant of the selection in [`summarize_signal_traces`]: `out`
/// holds, in order, summaries that rank before every one left in `cand`,
/// and every summary of `t` is in one of the two.
pub open spec fn selection_inv(t: Seq<SignalQueryResult>, cand: Seq<SignalQueryResult>, out: Seq<SignalQueryResult>) -> bool {
    &&& forall|p: int| 0 <= p < cand.len() ==> t.contains(#[trigger] cand[p])
    &&& forall|p: int| 0 <= p < out.len() ==> t.contains(#[trigger] out[p])
    &&& forall|p: int, q: int| 0 <= p < q < cand.len() ==> distinct_names(#[trigger] cand[p], #[trigger] cand[q])
    &&& forall|p: int, q: int| 0 <= p < q < out.len() ==> result_before(#[trigger] out[p], #[trigger] out[q])
    &&& forall|p: int, q: int|
        0 <= p < out.len() && 0 <= q < cand.len() ==> result_before(#[trigger] out[p], #[trigger] cand[q])
    &&& forall|j: int| 0 <= j < t.len() ==> cand.contains(#[trigger] t[j]) || out.contains(t[j])
}

proof fn lemma_selection_step(
    t: Seq<SignalQueryResult>,
    cand: Seq<SignalQueryResult>,
    out: Seq<SignalQueryResult>,
    m: int,
)
    requires
        selection_inv(t, cand, out),
        0 <= m < cand.len(),
        forall|q: int| 0 <= q < cand.len() && q != m ==> result_before(cand[m], #[trigger] cand[q]),
    ensures
        selection_inv(t, cand.remove(m), out.push(cand[m])),
{
    let c2 = cand.remove(m);
    let o2 = out.push(cand[m]);
    assert forall|q: int| 0 <= q < c2.len() implies #[trigger] c2[q] == cand[if q < m { q } else { q + 1 }] by {}
    assert forall|p: int| 0 <= p < c2.len() implies t.contains(#[trigger] c2[p]) by {
        assert(c2[p] == cand[if p < m { p } else { p + 1 }]);
    }
    assert forall|p: int| 0 <= p < o2.len() implies t.contains(#[trigger] o2[p]) by {
        if p < out.len() {
            assert(o2[p] == out[p]);
        } else {
            assert(o2[p] == cand[m]);
        }
    }
    assert forall|p: int, q: int| 0 <= p < q < c2.len() implies distinct_names(#[trigger] c2[p], #[trigger] c2[q]) by {
        let pp = if p < m { p } else { p + 1 };
        let qq = if q < m { q } else { q + 1 };
        assert(c2[p] == cand[pp] && c2[q] == cand[qq]);
    }
    assert forall|p: int, q: int| 0 <= p < q < o2.len() implies result_before(#[trigger] o2[p], #[trigger] o2[q]) by {
        assert(o2[p] == out[p]);
        if q == out.len() {
            assert(o2[q] == cand[m]);
        } else {
            assert(o2[q] == out[q]);
        }
    }
    assert forall|p: int, q: int| 0 <= p < o2.len() && 0 <= q < c2.len() implies result_before(
        #[trigger] o2[p],
        #[trigger] c2[q],
    ) by {
        let qq = if q < m { q } else { q + 1 };
        assert(c2[q] == cand[qq]);
        if p < out.len() {
            assert(o2[p] == out[p]);
        } else {
            assert(o2[p] == cand[m]);
        }
    }
    assert forall|j: int| 0 <= j < t.len() implies c2.contains(#[trigger] t[j]) || o2.contains(t[j]) by {
        if cand.contains(t[j]) {
            let p = choose|p: int| 0 <= p < cand.len() && cand[p] == t[j];
            if p == m {
                assert(o2[out.len() as int] == t[j]);
            } else if p < m {
                assert(c2[p] == t[j]);
            } else {
                assert(c2[p - 1] == t[j]);
            }
        } else {
            let p = choose|p: int| 0 <= p < out.len() && out[p] == t[j];
            assert(o2[p] == t[j]);
        }
    }
}

/// `out` lists, in rank order, the summaries of the first `limit` groups,
/// or of all of them when there are fewer.
pub open spec fn top_signals(ps: Seq<SignalPost>, out: Seq<SignalQueryResult>, limit: int) -> bool {
    &&& out.len() <= limit
    &&& forall|i: int, j: int| 0 <= i < j < out.len() ==> result_before(#[trigger] out[i], #[trigger] out[j])
    &&& forall|i: int| 0 <= i < out.len() ==> summarizes_within(ps, #[trigger] out[i], ps.len() as int)
    &&& forall|k: SignalKey|
        #[trigger] is_signal_group(ps, k) && !listed(out, k) ==> out.len() == limit && forall|i: int|
            0 <= i < out.len() ==> rank_before(rank_of(#[trigger] out[i]), group_rank(ps, k))
}

proof fn lemma_selection_done(
    ps: Seq<SignalPost>,
    t: Seq<SignalQueryResult>,
    cand: Seq<SignalQueryResult>,
    out: Seq<SignalQueryResult>,
    limit: int,
)
    requires
        table_ok(ps, t),
        selection_inv(t, cand, out),
        out.len() <= limit,
        out.len() == limit || cand.len() == 0,
    ensures
        top_signals(ps, out, limit),
{
    assert forall|i: int| 0 <= i < out.len() implies summarizes_within(ps, #[trigger] out[i], ps.len() as int) by {
        let j = choose|j: int| 0 <= j < t.len() && t[j] == out[i];
        assert(summarizes_within(ps, t[j], ps.len() as int));
    }
    assert forall|k: SignalKey| #[trigger] is_signal_group(ps, k) && !listed(out, k) implies out.len() == limit
        && forall|i: int| 0 <= i < out.len() ==> rank_before(rank_of(#[trigger] out[i]), group_rank(ps, k)) by {
        let q = choose|q: int| 0 <= q < ps.len() && post_key(#[trigger] ps[q]) == k;
        assert(listed(t, post_key(ps[q])));
        let j = choose|j: int| 0 <= j < t.len() && names(#[trigger] t[j], k);
        assert(summarizes_within(ps, t[j], ps.len() as int));
        let q2 = choose|q2: int| 0 <= q2 < ps.len() && summarizes(ps, post_key(#[trigger] ps[q2]), t[j]);
        lemma_name_injective(ps[q2].kind, k.0);
        assert(post_key(ps[q2]) == k);
        assert(rank_of(t[j]) == group_rank(ps, k));
        if out.contains(t[j]) {
            let p = choose|p: int| 0 <= p < out.len() && out[p] == t[j];
            assert(names(out[p], k));
        }
        assert(cand.contains(t[j]));
        let c = choose|c: int| 0 <= c < cand.len() && cand[c] == t[j];
        assert forall|i: int| 0 <= i < out.len() implies rank_before(rank_of(#[trigger] out[i]), group_rank(ps, k)) by {
            assert(result_before(out[i], cand[c]));
        }
    }
}

/// The summaries of the signal posts `ps`, one per kind and message, best
/// ranked first, at most `limit` of them.
pub fn summarize_signal_traces(ps: &[SignalPost], limit: usize) -> (out: Vec<SignalQueryResult>)
    ensures
        top_signals(ps@, out@, limit as int),
{
    let mut cand = summary_table(ps);
    let ghost t = cand@;
    let mut out: Vec<SignalQueryResult> = Vec::new();
    proof {
        assert forall|p: int| 0 <= p < cand@.len() implies t.contains(#[trigger] cand@[p]) by {}
        assert forall|j: int| 0 <= j < t.len() implies cand@.contains(#[trigger] t[j]) || out@.contains(t[j]) by {
            assert(cand@[j] == t[j]);
        }
    }
    while out.len() < limit && cand.len() > 0
        invariant
            table_ok(ps@, t),
            out@.len() <= limit,
            selection_inv(t, cand@, out@),
        decreases cand.len(),
    {
        let mut m: usize = 0;
        let mut p: usize = 1;
        while p < cand.len()
            invariant
                selection_inv(t, cand@, out@),
                0 < p <= cand.len(),
                m < p,
                forall|q: int| 0 <= q < p && q != m ==> result_before(cand@[m as int], #[trigger] cand@[q]),
            decreases cand.len() - p,
        {
            if ranks_first(&cand[p], &cand[m]) {
                proof {
                    assert forall|q: int| 0 <= q < p + 1 && q != p implies result_before(
                        cand@[p as int],
                        #[trigger] cand@[q],
                    ) by {
                        lemma_rank_order(rank_of(cand@[p as int]), rank_of(cand@[m as int]), rank_of(cand@[q]));
                    }
                }
                m = p;
            } else {
                proof {
                    if m < p {
                        assert(distinct_names(cand@[m as int], cand@[p as int]));
                    }
                    lemma_rank_order(rank_of(cand@[m as int]), rank_of(cand@[p as int]), rank_of(cand@[p as int]));
                }
            }
            p = p + 1;
        }
        let ghost old_cand = cand@;
        let ghost old_out = out@;
        let chosen = cand.remove(m);
        out.push(chosen);
        proof {
            lemma_selection_step(t, old_cand, old_out, m as int);
            assert(cand@ == old_cand.remove(m as int));
            assert(out@ == old_out.push(old_cand[m as int]));
        }
    }
    proof {
        lemma_selection_done(ps@, t, cand@, out@, limit as int);
    }
    out
}

/// Parsing a kind's name gives the kind back.
pub proof fn lemma_parse_name(k: SignalPostKind)
    ensures
        SignalPostKind::named(k.name()) == Some(k),
{
    reveal_strlit("recommend");
    reveal_strlit("avoid");
    reveal_strlit("watch");
    reveal_strlit("info");
    assert("recommend"@.len() == 9 && "avoid"@.len() == 5 && "watch"@.len() == 5 && "info"@.len() == 4);
    assert("avoid"@[0] != "watch"@[0]);
}

/// The capability of a kind marks a signal post and reads back as that
/// kind.
pub proof fn lemma_capability_round_trip(k: SignalPostKind)
    ensures
        SIGNAL_CAPABILITY_PREFIX@.is_prefix_of(k.spec_capability()),
        SignalPostKind::of_capability(k.spec_capability()) == Some(k),
{
    let c = k.spec_capability();
    let p = SIGNAL_CAPABILITY_PREFIX@;
    assert(c.subrange(0, p.len() as int) =~= p);
    assert(c.skip(p.len() as int) =~= k.name());
    lemma_parse_name(k);
}

/// A group never has more sources than posts.
pub proof fn lemma_sources_within_posts(ps: Seq<SignalPost>, k: SignalKey)
    ensures
        sources_of(ps, k).finite(),
        sources_of(ps, k).len() <= post_count(ps, k),
    decreases ps.len(),
{
    if ps.len() == 0 {
        assert(sources_of(ps, k) =~= Set::empty());
    } else {
        let pre = ps.drop_last();
        lemma_sources_within_posts(pre, k);
        assert(ps.take(ps.len() - 1) =~= pre);
        assert(ps.take(ps.len() as int) =~= ps);
        lemma_sources_step(ps, ps.len() - 1, k);
    }
}

/// A group has no more posts than there are.
pub proof fn lemma_posts_within(ps: Seq<SignalPost>, k: SignalKey)
    ensures
        post_count(ps, k) <= ps.len(),
    decreases ps.len(),
{
    if ps.len() > 0 {
        lemma_posts_within(ps.drop_last(), k);
    }
}

/// `a` comes before `b` by similarity, sources, posts and latest post,
/// compared in turn, or ties on all four.
pub open spec fn numbers_not_below(a: SignalQueryResult, b: SignalQueryResult) -> bool {
    ||| a.context_similarity > b.context_similarity
    ||| a.context_similarity == b.context_similarity && a.source_count > b.source_count
    ||| a.context_similarity == b.context_similarity && a.source_count == b.source_count && a.total_posts
        > b.total_posts
    ||| a.context_similarity == b.context_similarity && a.source_count == b.source_count && a.total_posts
        == b.total_posts && a.latest_timestamp >= b.latest_timestamp
}

/// The shape of a signal summary, where the posts are few enough for their
/// counts to fit a `u32`: at most `limit` summaries, no kind and message
/// twice, sorted by similarity, sources, posts and latest post, each with at
/// least one source and no more sources than posts, and at most three
/// non-empty contexts in increasing order.
pub proof fn lemma_summary_shape(ps: Seq<SignalPost>, out: Seq<SignalQueryResult>, limit: int)
    requires
        top_signals(ps, out, limit),
        ps.len() <= u32::MAX,
    ensures
        out.len() <= limit,
        forall|i: int, j: int| 0 <= i < j < out.len() ==> distinct_names(#[trigger] out[i], #[trigger] out[j]),
        forall|i: int, j: int| 0 <= i < j < out.len() ==> numbers_not_below(#[trigger] out[i], #[trigger] out[j]),
        forall|i: int|
            0 <= i < out.len() ==> 1 <= (#[trigger] out[i]).source_count && out[i].source_count <= out[i].total_posts,
        forall|i: int| 0 <= i < out.len() ==> (#[trigger] out[i]).contexts@.len() <= MAX_CONTEXTS,
        forall|i: int, a: int, b: int|
            #![trigger out[i].contexts@[a], out[i].contexts@[b]]
            0 <= i < out.len() && 0 <= a < b < out[i].contexts@.len() ==> lex_lt(
                out[i].contexts@[a]@,
                out[i].contexts@[b]@,
                char_order(),
            ),
        forall|i: int, a: int|
            0 <= i < out.len() && 0 <= a < out[i].contexts@.len() ==> (#[trigger] out[i].contexts@[a])@.len() > 0,
{
    assert forall|i: int| 0 <= i < out.len() implies 1 <= (#[trigger] out[i]).source_count && out[i].source_count
        <= out[i].total_posts && out[i].contexts@.len() <= MAX_CONTEXTS && (forall|a: int|
        0 <= a < out[i].contexts@.len() ==> (#[trigger] out[i].contexts@[a])@.len() > 0) && (forall|a: int, b: int|
        0 <= a < b < out[i].contexts@.len() ==> lex_lt(out[i].contexts@[a]@, out[i].contexts@[b]@, char_order())) by {
        let q = choose|q: int| 0 <= q < ps.len() && summarizes(ps, post_key(#[trigger] ps[q]), out[i]);
        let k = post_key(ps[q]);
        lemma_sources_within_posts(ps, k);
        lemma_posts_within(ps, k);
        assert(posted_by(ps, k, ps[q].source@));
        assert(sources_of(ps, k).contains(ps[q].source@));
        vstd::set_lib::lemma_set_empty_equivalency_len(sources_of(ps, k));
        let cs = views(out[i].contexts@);
        assert(smallest_first(cs, contexts_of(ps, k), MAX_CONTEXTS as int));
        assert forall|a: int| 0 <= a < out[i].contexts@.len() implies (#[trigger] out[i].contexts@[a])@.len() > 0 by {
            assert(cs[a] == out[i].contexts@[a]@);
            assert(contexts_of(ps, k).contains(cs[a]));
        }
        assert forall|a: int, b: int| 0 <= a < b < out[i].contexts@.len() implies lex_lt(
            out[i].contexts@[a]@,
            out[i].contexts@[b]@,
            char_order(),
        ) by {
            assert(cs[a] == out[i].contexts@[a]@);
            assert(cs[b] == out[i].contexts@[b]@);
        }
    }
    assert forall|i: int, j: int| 0 <= i < j < out.len() implies distinct_names(#[trigger] out[i], #[trigger] out[j]) by {
        assert(result_before(out[i], out[j]));
        if !distinct_names(out[i], out[j]) {
            let qi = choose|q: int| 0 <= q < ps.len() && summarizes(ps, post_key(#[trigger] ps[q]), out[i]);
            let qj = choose|q: int| 0 <= q < ps.len() && summarizes(ps, post_key(#[trigger] ps[q]), out[j]);
            lemma_name_injective(ps[qi].kind, ps[qj].kind);
            assert(post_key(ps[qi]) == post_key(ps[qj]));
            lemma_rank_order(rank_of(out[i]), rank_of(out[j]), rank_of(out[j]));
        }
    }
}

} // verus!
