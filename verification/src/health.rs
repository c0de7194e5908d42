//! Runtime evidence of one network host.

use vstd::prelude::*;

use crate::clock::Mono;
use crate::keys::same;
use crate::patch_summary::PatchSummary;
use crate::provider::PeerId;

verus! {

/// In which direction collections are reconciled.
#[derive(Clone, Copy, Debug, PartialEq, Eq, Structural)]
pub enum ReconcileDirection {
    Bidirectional,
    ReadOnly,
    WriteOnly,
}

impl ReconcileDirection {
    /// Whether this peer pulls from others.
    pub open spec fn pulling(self) -> bool {
        self != ReconcileDirection::WriteOnly
    }

    /// Whether this peer pulls from others.
    pub fn pulls(self) -> (pulls: bool)
        ensures
            pulls == self.pulling(),
    {
        match self {
            ReconcileDirection::WriteOnly => false,
            _ => true,
        }
    }
}

/// What a node holds of one collection.
#[derive(Clone, Copy, Debug, PartialEq, Eq)]
pub struct RepairFrontier {
    pub wake_root: [u8; 32],
    pub records: PatchSummary,
    pub authorization_evidence: PatchSummary,
}

impl RepairFrontier {
    /// Whether two nodes hold the same.
    pub fn agrees(&self, other: &Self) -> (equal: bool)
        ensures
            equal == (*self == *other),
    {
        same(&self.wake_root, &other.wake_root) && self.records.agrees(&other.records)
            && self.authorization_evidence.agrees(&other.authorization_evidence)
    }
}

/// One comparison of two nodes.
#[derive(Clone, Copy, Debug, PartialEq, Eq)]
pub struct RepairComparison {
    pub observed_at: Mono,
    pub local: RepairFrontier,
    pub remote: RepairFrontier,
}

/// What is known of one peer of a collection.
#[derive(Clone, Copy, Debug, PartialEq, Eq)]
pub struct PeerHealth {
    pub peer: PeerId,
    pub first_started_at: Option<Mono>,
    pub last_remote_change_at: Option<Mono>,
    pub last_completed_at: Option<Mono>,
    pub last_failure_at: Option<Mono>,
    pub comparison: Option<RepairComparison>,
}

/// What is known of one collection.
#[derive(Debug)]
pub struct CollectionHealth {
    pub collection: [u8; 32],
    pub local_frontier: Option<RepairFrontier>,
    pub peers: Vec<PeerHealth>,
}

/// What is known of the store.
#[derive(Clone, Copy, Debug, PartialEq, Eq)]
pub struct StoreHealth {
    pub last_snapshot_observed_at: Option<Mono>,
    pub last_snapshot_published_at: Option<Mono>,
    pub last_failure_at: Option<Mono>,
    pub serving_snapshot: bool,
    pub resident_blobs: u64,
}

impl StoreHealth {
    /// Nothing is known yet.
    pub open spec fn unobserved() -> Self {
        StoreHealth {
            last_snapshot_observed_at: None,
            last_snapshot_published_at: None,
            last_failure_at: None,
            serving_snapshot: false,
            resident_blobs: 0,
        }
    }
}

impl Default for StoreHealth {
    fn default() -> (health: Self)
        ensures
            health == Self::unobserved(),
    {
        StoreHealth {
            last_snapshot_observed_at: None,
            last_snapshot_published_at: None,
            last_failure_at: None,
            serving_snapshot: false,
            resident_blobs: 0,
        }
    }
}

/// What is known of provider publication.
#[derive(Clone, Copy, Debug, PartialEq, Eq)]
pub struct PublicationHealth {
    pub resident: u64,
    pub startup_pending: u64,
    pub incremental_pending: u64,
    pub retry_pending: u64,
    pub renewal_remaining: u64,
    pub in_flight: usize,
    pub attempts: u64,
    pub acknowledged: u64,
    pub rejected: u64,
    pub unavailable: u64,
    pub budget_exhausted: bool,
    pub last_started_at: Option<Mono>,
    pub last_acknowledged_at: Option<Mono>,
    pub unacknowledged_since: Option<Mono>,
}

impl PublicationHealth {
    /// Nothing is known yet.
    pub open spec fn unobserved() -> Self {
        PublicationHealth {
            resident: 0,
            startup_pending: 0,
            incremental_pending: 0,
            retry_pending: 0,
            renewal_remaining: 0,
            in_flight: 0,
            attempts: 0,
            acknowledged: 0,
            rejected: 0,
            unavailable: 0,
            budget_exhausted: false,
            last_started_at: None,
            last_acknowledged_at: None,
            unacknowledged_since: None,
        }
    }
}

impl Default for PublicationHealth {
    fn default() -> (health: Self)
        ensures
            health == Self::unobserved(),
    {
        PublicationHealth {
            resident: 0,
            startup_pending: 0,
            incremental_pending: 0,
            retry_pending: 0,
            renewal_remaining: 0,
            in_flight: 0,
            attempts: 0,
            acknowledged: 0,
            rejected: 0,
            unavailable: 0,
            budget_exhausted: false,
            last_started_at: None,
            last_acknowledged_at: None,
            unacknowledged_since: None,
        }
    }
}

/// Runtime evidence of one network host.
#[derive(Debug)]
pub struct HealthSnapshot {
    pub direction: Option<ReconcileDirection>,
    pub started_at: Option<Mono>,
    pub observed_at: Option<Mono>,
    pub store: StoreHealth,
    pub collections: Vec<CollectionHealth>,
    pub publication: PublicationHealth,
}

impl Default for HealthSnapshot {
    fn default() -> (health: Self)
        ensures
            health.direction is None,
            health.started_at is None,
            health.observed_at is None,
            health.store == StoreHealth::unobserved(),
            health.collections@.len() == 0,
            health.publication == PublicationHealth::unobserved(),
    {
        HealthSnapshot {
            direction: None,
            started_at: None,
            observed_at: None,
            store: StoreHealth::default(),
            collections: Vec::new(),
            publication: PublicationHealth::default(),
        }
    }
}

/// How two nodes compare.
#[derive(Clone, Copy, Debug, PartialEq, Eq, Structural)]
pub enum ComparisonState {
    Matching,
    Different,
    Unknown,
    NotApplicable,
}

/// Whether `at` is known, not in the future, and at most `duration` ago.
pub open spec fn recent(at: Option<Mono>, now: Mono, duration: u64) -> bool {
    match at {
        Some(at) => at.nanos <= now.nanos && now.nanos - at.nanos <= duration,
        None => false,
    }
}

/// Whether `at` is known, not in the future, and at most `duration` ago.
pub fn within(at: Option<Mono>, now: Mono, duration: u64) -> (recently: bool)
    ensures
        recently == recent(at, now, duration),
{
    match at {
        Some(at) => at.nanos <= now.nanos && now.nanos - at.nanos <= duration,
        None => false,
    }
}

/// How a peer compares at `now`: not at all where nothing is pulled, unknown
/// without a recent comparison, else by what was compared.
pub open spec fn peer_comparison(
    direction: Option<ReconcileDirection>,
    peer: PeerHealth,
    now: Mono,
    max_age: u64,
) -> ComparisonState {
    if direction matches Some(direction) && !direction.pulling() {
        ComparisonState::NotApplicable
    } else {
        match peer.comparison {
            None => ComparisonState::Unknown,
            Some(comparison) => if !recent(Some(comparison.observed_at), now, max_age) {
                ComparisonState::Unknown
            } else if comparison.local == comparison.remote {
                ComparisonState::Matching
            } else {
                ComparisonState::Different
            },
        }
    }
}

impl HealthSnapshot {
    /// Whether the host was observed at most `max_age` ago.
    pub fn is_fresh(&self, now: Mono, max_age: u64) -> (fresh: bool)
        ensures
            fresh == recent(self.observed_at, now, max_age),
    {
        within(self.observed_at, now, max_age)
    }

    /// How one peer compares at `now`.
    pub fn comparison(&self, peer: &PeerHealth, now: Mono, max_age: u64) -> (state: ComparisonState)
        ensures
            state == peer_comparison(self.direction, *peer, now, max_age),
    {
        if let Some(direction) = self.direction {
            if !direction.pulls() {
                return ComparisonState::NotApplicable;
            }
        }
        match peer.comparison {
            None => ComparisonState::Unknown,
            Some(comparison) => if !within(Some(comparison.observed_at), now, max_age) {
                ComparisonState::Unknown
            } else if comparison.local.agrees(&comparison.remote) {
                ComparisonState::Matching
            } else {
                ComparisonState::Different
            },
        }
    }
}

} // verus!
