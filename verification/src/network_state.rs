//! Network snapshot and the status derived from it.
//!
//! A [`NetworkSnapshot`] records what the node last saw of the P2P network;
//! [`NetworkSnapshot::to_status_at`] classifies it into the activity, transport
//! mode and dependency level shown to users.

use vstd::prelude::*;

use crate::clock::now_millis;
use crate::text::{join_path, path_joined};

verus! {

/// How long a bootstrap contact counts as recent: fifteen minutes.
pub const RECENT_BOOTSTRAP_WINDOW_MS: i64 = 900000;

/// Name of the network status file in the data directory.
pub const NETWORK_STATUS_FILE: &'static str = "network-status.v1.json";

/// What the node last recorded about its network.
pub struct NetworkSnapshot {
    pub updated_at_ms: i64,
    pub bootstrap_targets: usize,
    pub last_bootstrap_contact_at_ms: Option<i64>,
    pub peer_count: usize,
    pub direct_peer_count: usize,
    pub relay_peer_count: usize,
    pub last_peer_connected_at_ms: Option<i64>,
    pub last_trace_received_at_ms: Option<i64>,
}

/// The user-facing classification of a snapshot.
pub struct NetworkStatus {
    pub activity: &'static str,
    pub transport_mode: &'static str,
    pub vps_dependency_level: &'static str,
    pub peer_count: usize,
    pub direct_peer_count: usize,
    pub relay_peer_count: usize,
    pub bootstrap_targets: usize,
    pub bootstrap_contacted_recently: bool,
    pub last_peer_connected_age_ms: Option<i64>,
    pub last_trace_received_age_ms: Option<i64>,
    pub last_bootstrap_contact_age_ms: Option<i64>,
}

/// `a - b` clamped to the range of `i64`.
pub open spec fn saturating_diff(a: i64, b: i64) -> i64 {
    let d = a - b;
    if d > i64::MAX {
        i64::MAX
    } else if d < i64::MIN {
        i64::MIN
    } else {
        d as i64
    }
}

/// The age of an optional timestamp at `now`.
pub open spec fn spec_age(now: i64, ts: Option<i64>) -> Option<i64> {
    match ts {
        Some(value) => Some(saturating_diff(now, value)),
        None => None,
    }
}

/// Whether the last bootstrap contact lies within the recent window at `now`.
pub open spec fn contacted_recently(snapshot: NetworkSnapshot, now: i64) -> bool {
    match snapshot.last_bootstrap_contact_at_ms {
        Some(ts) => now - ts <= RECENT_BOOTSTRAP_WINDOW_MS,
        None => false,
    }
}

pub open spec fn spec_activity(snapshot: NetworkSnapshot, now: i64) -> Seq<char> {
    if snapshot.peer_count > 0 {
        "connected"@
    } else if contacted_recently(snapshot, now) {
        "bootstrapping"@
    } else {
        "offline"@
    }
}

pub open spec fn spec_transport_mode(snapshot: NetworkSnapshot) -> Seq<char> {
    if snapshot.direct_peer_count > 0 && snapshot.relay_peer_count > 0 {
        "mixed"@
    } else if snapshot.direct_peer_count > 0 {
        "direct"@
    } else if snapshot.relay_peer_count > 0 {
        "relayed"@
    } else {
        "offline"@
    }
}

pub open spec fn spec_vps_dependency_level(snapshot: NetworkSnapshot) -> Seq<char> {
    if snapshot.bootstrap_targets == 0 {
        if snapshot.peer_count > 0 {
            "peer-native"@
        } else {
            "offline"@
        }
    } else if snapshot.peer_count == 0 {
        "bootstrap-only"@
    } else if snapshot.peer_count == 1 {
        "high"@
    } else if snapshot.peer_count == 2 {
        "medium"@
    } else {
        "low"@
    }
}

/// The age of `ts` at `now`, saturating at the bounds of `i64`.
pub fn age(now: i64, ts: Option<i64>) -> (res: Option<i64>)
    ensures
        res == spec_age(now, ts),
{
    match ts {
        Some(value) => {
            let d = match now.checked_sub(value) {
                Some(d) => d,
                None => {
                    if value > 0 {
                        i64::MIN
                    } else {
                        i64::MAX
                    }
                },
            };
            Some(d)
        },
        None => None,
    }
}

impl NetworkSnapshot {
    /// The path of the status file in the data directory `data_dir`.
    pub fn status_path(data_dir: &str) -> (p: String)
        ensures
            p@ == path_joined(data_dir@, NETWORK_STATUS_FILE@),
    {
        join_path(data_dir, NETWORK_STATUS_FILE)
    }

    /// The empty snapshot: nothing seen, nothing recorded.
    pub open spec fn spec_empty() -> NetworkSnapshot {
        NetworkSnapshot {
            updated_at_ms: 0,
            bootstrap_targets: 0,
            last_bootstrap_contact_at_ms: None,
            peer_count: 0,
            direct_peer_count: 0,
            relay_peer_count: 0,
            last_peer_connected_at_ms: None,
            last_trace_received_at_ms: None,
        }
    }

    /// The snapshot a node starts with at `now` when it has `bootstrap_targets`
    /// bootstrap addresses; dialing them counts as a bootstrap contact.
    pub open spec fn begun(bootstrap_targets: usize, now: i64) -> NetworkSnapshot {
        NetworkSnapshot {
            updated_at_ms: now,
            bootstrap_targets,
            last_bootstrap_contact_at_ms: if bootstrap_targets > 0 { Some(now) } else { None },
            ..NetworkSnapshot::spec_empty()
        }
    }

    /// The empty snapshot, as `Default` gives it.
    pub fn empty() -> (s: Self)
        ensures
            s == NetworkSnapshot::spec_empty(),
    {
        NetworkSnapshot {
            updated_at_ms: 0,
            bootstrap_targets: 0,
            last_bootstrap_contact_at_ms: None,
            peer_count: 0,
            direct_peer_count: 0,
            relay_peer_count: 0,
            last_peer_connected_at_ms: None,
            last_trace_received_at_ms: None,
        }
    }

    /// A fresh snapshot at `now`.
    pub fn begin_at(bootstrap_targets: usize, now: i64) -> (s: Self)
        ensures
            s == NetworkSnapshot::begun(bootstrap_targets, now),
    {
        NetworkSnapshot {
            updated_at_ms: now,
            bootstrap_targets,
            last_bootstrap_contact_at_ms: if bootstrap_targets > 0 { Some(now) } else { None },
            peer_count: 0,
            direct_peer_count: 0,
            relay_peer_count: 0,
            last_peer_connected_at_ms: None,
            last_trace_received_at_ms: None,
        }
    }

    /// A fresh snapshot at the current time, which becomes `updated_at_ms`.
    pub fn begin(bootstrap_targets: usize) -> (s: Self)
        ensures
            s == NetworkSnapshot::begun(bootstrap_targets, s.updated_at_ms),
    {
        let now = now_millis();
        Self::begin_at(bootstrap_targets, now)
    }

    /// Records at `now` that `connected_peers` peers are connected, all of
    /// them directly.
    pub fn mark_peer_connected_at(&mut self, connected_peers: usize, now: i64)
        ensures
            *final(self) == (NetworkSnapshot {
                updated_at_ms: now,
                peer_count: connected_peers,
                direct_peer_count: connected_peers,
                relay_peer_count: 0,
                last_peer_connected_at_ms: Some(now),
                ..*old(self)
            }),
    {
        self.updated_at_ms = now;
        self.peer_count = connected_peers;
        self.direct_peer_count = connected_peers;
        self.relay_peer_count = 0;
        self.last_peer_connected_at_ms = Some(now);
    }

    /// [`Self::mark_peer_connected_at`] at the current time.
    pub fn mark_peer_connected(&mut self, connected_peers: usize)
        ensures
            *final(self) == (NetworkSnapshot {
                updated_at_ms: final(self).updated_at_ms,
                peer_count: connected_peers,
                direct_peer_count: connected_peers,
                relay_peer_count: 0,
                last_peer_connected_at_ms: Some(final(self).updated_at_ms),
                ..*old(self)
            }),
    {
        let now = now_millis();
        self.mark_peer_connected_at(connected_peers, now);
    }

    /// Records at `now` that a peer left and `connected_peers` remain.
    pub fn mark_peer_disconnected_at(&mut self, connected_peers: usize, now: i64)
        ensures
            *final(self) == (NetworkSnapshot {
                updated_at_ms: now,
                peer_count: connected_peers,
                direct_peer_count: connected_peers,
                relay_peer_count: 0,
                ..*old(self)
            }),
    {
        self.updated_at_ms = now;
        self.peer_count = connected_peers;
        self.direct_peer_count = connected_peers;
        self.relay_peer_count = 0;
    }

    /// [`Self::mark_peer_disconnected_at`] at the current time.
    pub fn mark_peer_disconnected(&mut self, connected_peers: usize)
        ensures
            *final(self) == (NetworkSnapshot {
                updated_at_ms: final(self).updated_at_ms,
                peer_count: connected_peers,
                direct_peer_count: connected_peers,
                relay_peer_count: 0,
                ..*old(self)
            }),
    {
        let now = now_millis();
        self.mark_peer_disconnected_at(connected_peers, now);
    }

    /// Records at `now` that a trace arrived from the network.
    pub fn mark_trace_received_at(&mut self, now: i64)
        ensures
            *final(self) == (NetworkSnapshot {
                updated_at_ms: now,
                last_trace_received_at_ms: Some(now),
                ..*old(self)
            }),
    {
        self.updated_at_ms = now;
        self.last_trace_received_at_ms = Some(now);
    }

    /// [`Self::mark_trace_received_at`] at the current time.
    pub fn mark_trace_received(&mut self)
        ensures
            *final(self) == (NetworkSnapshot {
                updated_at_ms: final(self).updated_at_ms,
                last_trace_received_at_ms: Some(final(self).updated_at_ms),
                ..*old(self)
            }),
    {
        let now = now_millis();
        self.mark_trace_received_at(now);
    }

    /// `st` is the status this snapshot shows at `now`.
    pub open spec fn shows_at(self, now: i64, st: NetworkStatus) -> bool {
        &&& st.activity@ == spec_activity(self, now)
        &&& st.transport_mode@ == spec_transport_mode(self)
        &&& st.vps_dependency_level@ == spec_vps_dependency_level(self)
        &&& st.peer_count == self.peer_count
        &&& st.direct_peer_count == self.direct_peer_count
        &&& st.relay_peer_count == self.relay_peer_count
        &&& st.bootstrap_targets == self.bootstrap_targets
        &&& st.bootstrap_contacted_recently == contacted_recently(self, now)
        &&& st.last_peer_connected_age_ms == spec_age(now, self.last_peer_connected_at_ms)
        &&& st.last_trace_received_age_ms == spec_age(now, self.last_trace_received_at_ms)
        &&& st.last_bootstrap_contact_age_ms == spec_age(now, self.last_bootstrap_contact_at_ms)
    }

    /// Classifies the snapshot at `now`.
    pub fn to_status_at(&self, now: i64) -> (st: NetworkStatus)
        ensures
            self.shows_at(now, st),
    {
        let recently = match self.last_bootstrap_contact_at_ms {
            Some(ts) => match now.checked_sub(ts) {
                Some(d) => d <= RECENT_BOOTSTRAP_WINDOW_MS,
                None => ts > 0,
            },
            None => false,
        };
        let activity = if self.peer_count > 0 {
            "connected"
        } else if recently {
            "bootstrapping"
        } else {
            "offline"
        };
        let transport_mode = if self.direct_peer_count > 0 && self.relay_peer_count > 0 {
            "mixed"
        } else if self.direct_peer_count > 0 {
            "direct"
        } else if self.relay_peer_count > 0 {
            "relayed"
        } else {
            "offline"
        };
        let vps_dependency_level = if self.bootstrap_targets == 0 {
            if self.peer_count > 0 {
                "peer-native"
            } else {
                "offline"
            }
        } else if self.peer_count == 0 {
            "bootstrap-only"
        } else if self.peer_count == 1 {
            "high"
        } else if self.peer_count == 2 {
            "medium"
        } else {
            "low"
        };
        NetworkStatus {
            activity,
            transport_mode,
            vps_dependency_level,
            peer_count: self.peer_count,
            direct_peer_count: self.direct_peer_count,
            relay_peer_count: self.relay_peer_count,
            bootstrap_targets: self.bootstrap_targets,
            bootstrap_contacted_recently: recently,
            last_peer_connected_age_ms: age(now, self.last_peer_connected_at_ms),
            last_trace_received_age_ms: age(now, self.last_trace_received_at_ms),
            last_bootstrap_contact_age_ms: age(now, self.last_bootstrap_contact_at_ms),
        }
    }

    /// Classifies the snapshot at the current time.
    pub fn to_status(&self) -> (st: NetworkStatus)
        ensures
            exists|now: i64| #[trigger] self.shows_at(now, st),
    {
        let now = now_millis();
        self.to_status_at(now)
    }
}

impl Default for NetworkSnapshot {
    fn default() -> (s: Self)
        ensures
            s == NetworkSnapshot::spec_empty(),
    {
        NetworkSnapshot::empty()
    }
}


/// What a status says of its snapshot at `now`: the activity is `connected`
/// exactly when some peer is connected, and otherwise `bootstrapping` when
/// a bootstrap node was contacted within the last 15 minutes and `offline`
/// when not; the transport is `mixed` with direct and relayed peers,
/// `direct` or `relayed` with only those, and `offline` with neither.
pub proof fn lemma_status_classification(snapshot: NetworkSnapshot, now: i64, st: NetworkStatus)
    requires
        snapshot.shows_at(now, st),
    ensures
        st.activity@ == "connected"@ <==> snapshot.peer_count > 0,
        st.bootstrap_contacted_recently <==> (snapshot.last_bootstrap_contact_at_ms matches Some(ts) && now - ts
            <= 900000),
        snapshot.peer_count == 0 && st.bootstrap_contacted_recently ==> st.activity@ == "bootstrapping"@,
        snapshot.peer_count == 0 && !st.bootstrap_contacted_recently ==> st.activity@ == "offline"@,
        snapshot.direct_peer_count > 0 && snapshot.relay_peer_count > 0 ==> st.transport_mode@ == "mixed"@,
        snapshot.direct_peer_count > 0 && snapshot.relay_peer_count == 0 ==> st.transport_mode@ == "direct"@,
        snapshot.direct_peer_count == 0 && snapshot.relay_peer_count > 0 ==> st.transport_mode@ == "relayed"@,
        snapshot.direct_peer_count == 0 && snapshot.relay_peer_count == 0 ==> st.transport_mode@ == "offline"@,
        st.peer_count == snapshot.peer_count,
{
    reveal_strlit("connected");
    reveal_strlit("bootstrapping");
    reveal_strlit("offline");
    assert("connected"@.len() == 9 && "bootstrapping"@.len() == 13 && "offline"@.len() == 7);
}

/// How much a status depends on bootstrap servers: without bootstrap
/// targets, `peer-native` with peers and `offline` without; with targets,
/// `bootstrap-only` without peers, `high` with one, `medium` with two and
/// `low` with more.
pub proof fn lemma_vps_dependency(snapshot: NetworkSnapshot, now: i64, st: NetworkStatus)
    requires
        snapshot.shows_at(now, st),
    ensures
        snapshot.bootstrap_targets == 0 && snapshot.peer_count > 0 ==> st.vps_dependency_level@ == "peer-native"@,
        snapshot.bootstrap_targets == 0 && snapshot.peer_count == 0 ==> st.vps_dependency_level@ == "offline"@,
        snapshot.bootstrap_targets > 0 && snapshot.peer_count == 0 ==> st.vps_dependency_level@ == "bootstrap-only"@,
        snapshot.bootstrap_targets > 0 && snapshot.peer_count == 1 ==> st.vps_dependency_level@ == "high"@,
        snapshot.bootstrap_targets > 0 && snapshot.peer_count == 2 ==> st.vps_dependency_level@ == "medium"@,
        snapshot.bootstrap_targets > 0 && snapshot.peer_count > 2 ==> st.vps_dependency_level@ == "low"@,
{
}

} // verus!
