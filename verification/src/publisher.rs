//! The publication scheduler for provider leases.

use vstd::prelude::*;

use crate::clock::Mono;
use crate::key_map::{is_least, lists_keys};
use crate::keys::{lemma_rank_injective, rank, same};
use crate::provider::{
    PeerId, ProviderIdentity, ProviderKey, ProviderSet, PROVIDER_LEASE_LIFETIME,
    PROVIDER_RENEWAL_PERIOD, RETRY_BACKOFF_BASE, RETRY_BACKOFF_CAP,
};

verus! {

/// The most publications that wait for an individual retry.
pub const MAX_PROVIDER_PUBLICATION_RETRIES: u64 = 1024;

/// How the publication of one key went.
#[derive(Clone, Copy, Debug, PartialEq, Eq, Structural)]
pub enum PublicationResult {
    Published,
    NoAuthenticatedRemoteReplica,
    RemoteRejected,
}

/// How one directory node answered a provider put.
#[derive(Clone, Copy, Debug, PartialEq, Eq, Structural)]
pub enum ProviderPutResult {
    /// The target accepted the lease.
    Accepted,
    /// The target answered that it is full.
    ExplicitlyRejected,
    /// No complete protocol response arrived.
    Unavailable,
}

impl PublicationResult {
    /// Take one more answer into account. Answers of the local peer do not
    /// count; one remote acceptance outweighs everything, and one explicit
    /// rejection outweighs silence.
    pub fn observe_put(
        self,
        local: PeerId,
        peer: PeerId,
        result: ProviderPutResult,
    ) -> (publication: Self)
        ensures
            publication == if peer == local {
                self
            } else if self == PublicationResult::Published || result
                == ProviderPutResult::Accepted {
                PublicationResult::Published
            } else if self == PublicationResult::RemoteRejected || result
                == ProviderPutResult::ExplicitlyRejected {
                PublicationResult::RemoteRejected
            } else {
                PublicationResult::NoAuthenticatedRemoteReplica
            },
    {
        if same(&peer, &local) {
            return self;
        }
        match (self, result) {
            (PublicationResult::Published, _) => PublicationResult::Published,
            (_, ProviderPutResult::Accepted) => PublicationResult::Published,
            (PublicationResult::RemoteRejected, _) => PublicationResult::RemoteRejected,
            (_, ProviderPutResult::ExplicitlyRejected) => PublicationResult::RemoteRejected,
            (PublicationResult::NoAuthenticatedRemoteReplica, ProviderPutResult::Unavailable) => {
                PublicationResult::NoAuthenticatedRemoteReplica
            },
        }
    }

    /// The outcome of a publication from the answers of all nodes asked.
    pub fn from_put_results(
        local: PeerId,
        results: &[(PeerId, ProviderPutResult)],
    ) -> (publication: Self)
        ensures
            publication == put_outcome(local, results@),
    {
        let mut publication = PublicationResult::NoAuthenticatedRemoteReplica;
        let mut i: usize = 0;
        while i < results.len()
            invariant
                i <= results@.len(),
                publication == put_outcome(local, results@.take(i as int)),
            decreases results@.len() - i,
        {
            let ghost before = results@.take(i as int);
            publication = publication.observe_put(local, results[i].0, results[i].1);
            i = i + 1;
            proof {
                let after = results@.take(i as int);
                assert(after =~= before.push(results@[i - 1]));
                assert(after[i - 1] == results@[i - 1]);
                assert forall|answer: ProviderPutResult|
                    remote_answered(local, after, answer) == (remote_answered(
                        local,
                        before,
                        answer,
                    ) || (results@[i - 1].0 != local && results@[i - 1].1 == answer)) by {
                    if remote_answered(local, before, answer) {
                        let j = choose|j: int|
                            0 <= j < before.len() && (#[trigger] before[j]).0 != local
                                && before[j].1 == answer;
                        assert(after[j] == before[j]);
                    }
                    if remote_answered(local, after, answer) {
                        let j = choose|j: int|
                            0 <= j < after.len() && (#[trigger] after[j]).0 != local
                                && after[j].1 == answer;
                        if j < i - 1 {
                            assert(before[j] == after[j]);
                        }
                    }
                }
            }
        }
        assert(results@.take(i as int) =~= results@);
        publication
    }
}

/// Whether some peer other than `local` gave `answer`.
pub open spec fn remote_answered(
    local: PeerId,
    results: Seq<(PeerId, ProviderPutResult)>,
    answer: ProviderPutResult,
) -> bool {
    exists|i: int|
        0 <= i < results.len() && (#[trigger] results[i]).0 != local && results[i].1 == answer
}

/// What a set of answers amounts to.
pub open spec fn put_outcome(
    local: PeerId,
    results: Seq<(PeerId, ProviderPutResult)>,
) -> PublicationResult {
    if remote_answered(local, results, ProviderPutResult::Accepted) {
        PublicationResult::Published
    } else if remote_answered(local, results, ProviderPutResult::ExplicitlyRejected) {
        PublicationResult::RemoteRejected
    } else {
        PublicationResult::NoAuthenticatedRemoteReplica
    }
}

/// What the completion of one publication changed.
#[derive(Clone, Copy, Debug, PartialEq, Eq, Structural)]
pub struct PublicationEffect {
    pub topology_outage_started: bool,
    pub topology_recovered: bool,
    pub retry_budget_full: bool,
}

/// The queue to which unfinished work returns.
#[derive(Clone, Copy, Debug, PartialEq, Eq, Structural)]
pub enum PublicationLane {
    Startup,
    Incremental,
}

/// One bounded in-flight attempt, retaining its pending lane through a topology
/// outage. Retries and renewals return to historical work, not fresh arrivals.
#[derive(Clone, Copy, Debug, PartialEq, Eq)]
pub struct ProviderPublication {
    pub key: ProviderKey,
    pub identity: ProviderIdentity,
    pub lane: PublicationLane,
}

/// Operational counts, not unique remote lease coverage.
#[derive(Clone, Copy, Debug, PartialEq, Eq)]
pub struct PublicationProgress {
    pub resident: u64,
    pub startup_pending: u64,
    pub incremental_pending: u64,
    pub retry_pending: u64,
    pub renewal_remaining: u64,
    pub topology_paused: bool,
}

/// A network without an authenticated replica: publication pauses, and one
/// probe at a time asks whether it is back.
#[derive(Clone, Copy, Debug, PartialEq, Eq)]
pub struct PublicationTopologyOutage {
    pub attempts: u32,
    pub retry_at: Mono,
    pub probe: Option<ProviderKey>,
}

/// One renewal traversal of the keys that were resident when it started.
#[derive(Debug)]
pub struct PublicationCycle {
    pub keys: Vec<ProviderKey>,
    pub started: Mono,
    pub total: u64,
    pub remaining: u64,
    pub next_due: Mono,
}

/// The traversal as a value: `remaining` keys at the end of `keys` are to come.
pub struct CycleState {
    pub keys: Seq<ProviderKey>,
    pub started: Mono,
    pub remaining: nat,
    pub next_due: Mono,
}

impl View for PublicationCycle {
    type V = CycleState;

    open spec fn view(&self) -> CycleState {
        CycleState {
            keys: self.keys@,
            started: self.started,
            remaining: self.remaining as nat,
            next_due: self.next_due,
        }
    }
}

impl PublicationCycle {
    /// A traversal in progress still has a key to renew.
    pub open spec fn well_formed(&self) -> bool {
        0 < self.remaining <= self.total == self.keys@.len()
    }
}

/// The time between two renewals of a traversal of `total` keys.
pub open spec fn renewal_interval(total: nat) -> nat {
    if PROVIDER_RENEWAL_PERIOD as nat / total >= 1 {
        PROVIDER_RENEWAL_PERIOD as nat / total
    } else {
        1
    }
}

/// The key that a traversal renews at `now`, and what is left of it: each due
/// key is passed in turn, up to and including the first that is still resident.
pub open spec fn cycle_turn(
    cycle: CycleState,
    resident: Map<ProviderKey, ProviderIdentity>,
    now: Mono,
) -> (Option<ProviderKey>, Option<CycleState>)
    decreases cycle.remaining,
{
    if cycle.remaining == 0 || now.nanos < cycle.next_due.nanos {
        (None, Some(cycle))
    } else {
        let key = cycle.keys[cycle.keys.len() - cycle.remaining];
        let rest = CycleState {
            remaining: (cycle.remaining - 1) as nat,
            next_due: cycle.next_due.later(renewal_interval(cycle.keys.len())),
            ..cycle
        };
        if resident.contains_key(key) {
            (
                Some(key),
                if rest.remaining == 0 {
                    None
                } else {
                    Some(rest)
                },
            )
        } else if rest.remaining == 0 {
            (None, None)
        } else {
            cycle_turn(rest, resident, now)
        }
    }
}

/// The delay before the next probe after `attempts` failed ones: the base
/// doubles with each attempt, six times at most and never beyond the cap.
pub open spec fn topology_delay(attempts: nat) -> nat {
    let doublings = if attempts == 0 {
        0
    } else if attempts <= 7 {
        (attempts - 1) as nat
    } else {
        6
    };
    let delay = RETRY_BACKOFF_BASE as nat * vstd::arithmetic::power2::pow2(doublings);
    if delay <= RETRY_BACKOFF_CAP {
        delay
    } else {
        RETRY_BACKOFF_CAP as nat
    }
}

/// The pending key whose turn is next: the least one that is resident.
pub open spec fn next_pending(
    pending: Map<ProviderKey, ProviderIdentity>,
    resident: Map<ProviderKey, ProviderIdentity>,
) -> Option<ProviderKey> {
    if exists|key: ProviderKey| is_least(pending.restrict(resident.dom()), key) {
        Some(choose|key: ProviderKey| is_least(pending.restrict(resident.dom()), key))
    } else {
        None
    }
}

/// What stays pending after a turn: the keys behind the one that was taken.
pub open spec fn still_pending(
    pending: Map<ProviderKey, ProviderIdentity>,
    taken: Option<ProviderKey>,
) -> Map<ProviderKey, ProviderIdentity> {
    match taken {
        Some(taken) => pending.restrict(Set::new(|key: ProviderKey| rank(key) > rank(taken))),
        None => Map::empty(),
    }
}

/// The work of publishing `key`.
pub open spec fn publication(
    key: Option<ProviderKey>,
    resident: Map<ProviderKey, ProviderIdentity>,
    lane: PublicationLane,
) -> Option<ProviderPublication> {
    match key {
        Some(key) => Some(ProviderPublication { key, identity: resident[key], lane }),
        None => None,
    }
}

/// The least resident pending key is the next one.
pub proof fn lemma_next_pending(
    pending: Map<ProviderKey, ProviderIdentity>,
    resident: Map<ProviderKey, ProviderIdentity>,
    key: ProviderKey,
)
    requires
        is_least(pending.restrict(resident.dom()), key),
    ensures
        next_pending(pending, resident) == Some(key),
{
    let live = pending.restrict(resident.dom());
    let chosen = choose|key: ProviderKey| is_least(live, key);
    assert(is_least(live, chosen));
    assert(rank(chosen) == rank(key));
    lemma_rank_injective(chosen, key);
}

/// The scheduler as a value.
pub struct PublisherState {
    pub resident: Map<ProviderKey, ProviderIdentity>,
    pub initialized: bool,
    pub startup: Map<ProviderKey, ProviderIdentity>,
    pub additions: Map<ProviderKey, ProviderIdentity>,
    pub retries: Map<ProviderKey, ProviderIdentity>,
    pub retry_at: Mono,
    pub cycle: Option<CycleState>,
    pub next_renewal: Mono,
    pub prefer_cycle: bool,
    pub prefer_retry: bool,
    pub prefer_startup: bool,
    pub topology_outage: Option<PublicationTopologyOutage>,
}

impl PublisherState {
    /// A scheduler that has seen no resident set yet.
    pub open spec fn initial(now: Mono) -> PublisherState {
        PublisherState {
            resident: Map::empty(),
            initialized: false,
            startup: Map::empty(),
            additions: Map::empty(),
            retries: Map::empty(),
            retry_at: now,
            cycle: None,
            next_renewal: now.later(PROVIDER_RENEWAL_PERIOD as nat),
            prefer_cycle: false,
            prefer_retry: false,
            prefer_startup: true,
            topology_outage: None,
        }
    }

    /// A new resident set: the first one is all startup work; of a later one,
    /// the keys that were not resident before are incremental work. No lane
    /// keeps a key that is no longer resident.
    pub open spec fn installed(
        self,
        resident: Map<ProviderKey, ProviderIdentity>,
        now: Mono,
    ) -> PublisherState {
        if self.initialized {
            PublisherState {
                startup: self.startup.restrict(resident.dom()),
                additions: resident.remove_keys(self.resident.dom()).union_prefer_right(
                    self.additions.restrict(resident.dom()),
                ),
                retries: self.retries.restrict(resident.dom()),
                resident,
                ..self
            }
        } else {
            PublisherState {
                initialized: true,
                startup: resident,
                next_renewal: now.later(PROVIDER_RENEWAL_PERIOD as nat),
                resident,
                ..self
            }
        }
    }

    /// Whether the retry set has no room for `key`.
    pub open spec fn retry_refused(self, key: ProviderKey) -> bool {
        self.retries.dom().len() >= MAX_PROVIDER_PUBLICATION_RETRIES && !self.retries.contains_key(
            key,
        )
    }

    /// `key` queued for an individual retry, if it is resident and there is room.
    pub open spec fn retried(self, key: ProviderKey, now: Mono) -> PublisherState {
        if self.retry_refused(key) || !self.resident.contains_key(key) {
            self
        } else {
            PublisherState {
                retries: self.retries.insert(key, self.resident[key]),
                retry_at: if self.retries == Map::<ProviderKey, ProviderIdentity>::empty() {
                    now.later(RETRY_BACKOFF_BASE as nat)
                } else {
                    self.retry_at
                },
                ..self
            }
        }
    }

    /// Work returned to its lane, if its key is still resident.
    pub open spec fn preserved(self, work: ProviderPublication) -> PublisherState {
        if !self.resident.contains_key(work.key) {
            self
        } else {
            match work.lane {
                PublicationLane::Startup => PublisherState {
                    startup: self.startup.insert(work.key, self.resident[work.key]),
                    ..self
                },
                PublicationLane::Incremental => PublisherState {
                    additions: self.additions.insert(work.key, self.resident[work.key]),
                    ..self
                },
            }
        }
    }

    /// The outage after `key` found no authenticated replica: the first such
    /// key starts it, and only its probe makes it wait longer.
    pub open spec fn outage_after(self, key: ProviderKey, now: Mono) -> PublicationTopologyOutage {
        match self.topology_outage {
            None => PublicationTopologyOutage {
                attempts: 1,
                retry_at: now.later(topology_delay(1)),
                probe: None,
            },
            Some(outage) => if outage.probe == Some(key) {
                let attempts = if outage.attempts < u32::MAX {
                    (outage.attempts + 1) as u32
                } else {
                    outage.attempts
                };
                PublicationTopologyOutage {
                    attempts,
                    retry_at: now.later(topology_delay(attempts as nat)),
                    probe: None,
                }
            } else {
                outage
            },
        }
    }

    /// The scheduler after the outcome of `work`.
    pub open spec fn completed(
        self,
        work: ProviderPublication,
        result: PublicationResult,
        now: Mono,
    ) -> PublisherState {
        match result {
            PublicationResult::Published => PublisherState { topology_outage: None, ..self },
            PublicationResult::RemoteRejected => PublisherState {
                topology_outage: None,
                ..self
            }.retried(work.key, now),
            PublicationResult::NoAuthenticatedRemoteReplica => PublisherState {
                topology_outage: Some(self.outage_after(work.key, now)),
                ..self.preserved(work)
            },
        }
    }

    /// What the outcome of `work` changes.
    pub open spec fn effect(
        self,
        work: ProviderPublication,
        result: PublicationResult,
    ) -> PublicationEffect {
        PublicationEffect {
            topology_outage_started: result == PublicationResult::NoAuthenticatedRemoteReplica
                && self.topology_outage is None,
            topology_recovered: result != PublicationResult::NoAuthenticatedRemoteReplica
                && self.topology_outage is Some,
            retry_budget_full: result == PublicationResult::RemoteRejected && self.retry_refused(
                work.key,
            ),
        }
    }

    /// A renewal traversal starts when one is due and none is under way.
    pub open spec fn cycle_begun(self, now: Mono) -> PublisherState {
        if self.cycle is Some || !self.initialized || now.nanos < self.next_renewal.nanos {
            self
        } else if self.resident == Map::<ProviderKey, ProviderIdentity>::empty() {
            PublisherState {
                next_renewal: now.later(PROVIDER_RENEWAL_PERIOD as nat),
                ..self
            }
        } else {
            PublisherState {
                cycle: Some(
                    CycleState {
                        keys: ordered_keys(self.resident),
                        started: now,
                        remaining: self.resident.dom().len(),
                        next_due: now,
                    },
                ),
                ..self
            }
        }
    }

    /// The renewal whose turn it is, and the scheduler after it.
    pub open spec fn renewal(self, now: Mono) -> (Option<ProviderPublication>, PublisherState) {
        match self.cycle {
            None => (None, self),
            Some(cycle) => {
                let (key, rest) = cycle_turn(cycle, self.resident, now);
                (
                    publication(key, self.resident, PublicationLane::Startup),
                    PublisherState {
                        cycle: rest,
                        next_renewal: if rest is None {
                            cycle.started.later(PROVIDER_RENEWAL_PERIOD as nat)
                        } else {
                            self.next_renewal
                        },
                        ..self
                    },
                )
            },
        }
    }

    /// The next startup work, and the scheduler after it.
    pub open spec fn startup_turn(self) -> (Option<ProviderPublication>, PublisherState) {
        let key = next_pending(self.startup, self.resident);
        (
            publication(key, self.resident, PublicationLane::Startup),
            PublisherState {
                startup: still_pending(self.startup, key),
                prefer_startup: if key is Some {
                    false
                } else {
                    self.prefer_startup
                },
                ..self
            },
        )
    }

    /// The next incremental work, and the scheduler after it.
    pub open spec fn incremental_turn(self) -> (Option<ProviderPublication>, PublisherState) {
        let key = next_pending(self.additions, self.resident);
        (
            publication(key, self.resident, PublicationLane::Incremental),
            PublisherState {
                additions: still_pending(self.additions, key),
                prefer_startup: if key is Some {
                    true
                } else {
                    self.prefer_startup
                },
                ..self
            },
        )
    }

    /// The next arrival: from the lane whose turn it is, else from the other.
    pub open spec fn arrival(self) -> (Option<ProviderPublication>, PublisherState) {
        let first = if self.prefer_startup {
            self.startup_turn()
        } else {
            self.incremental_turn()
        };
        if first.0 is Some {
            first
        } else if self.prefer_startup {
            first.1.incremental_turn()
        } else {
            first.1.startup_turn()
        }
    }

    /// The next individual retry, if retries are due, and the scheduler after it.
    pub open spec fn retry_turn(self, now: Mono) -> (Option<ProviderPublication>, PublisherState) {
        if now.nanos < self.retry_at.nanos {
            (None, self)
        } else {
            let key = next_pending(self.retries, self.resident);
            (
                publication(key, self.resident, PublicationLane::Startup),
                PublisherState {
                    retries: still_pending(self.retries, key),
                    retry_at: if key is Some {
                        now.later(RETRY_BACKOFF_BASE as nat)
                    } else {
                        self.retry_at
                    },
                    ..self
                },
            )
        }
    }

    /// The next pending work: an arrival or a retry, whichever has precedence.
    pub open spec fn pending_turn(self, now: Mono) -> (Option<ProviderPublication>, PublisherState) {
        let first = if self.prefer_retry {
            self.retry_turn(now)
        } else {
            self.arrival()
        };
        if first.0 is Some {
            first
        } else if self.prefer_retry {
            first.1.arrival()
        } else {
            first.1.retry_turn(now)
        }
    }

    /// Pending work and due renewals alternate.
    pub open spec fn ready(self, now: Mono) -> (Option<ProviderPublication>, PublisherState) {
        let begun = self.cycle_begun(now);
        let renewal = begun.renewal(now);
        if begun.prefer_cycle && renewal.0 is Some {
            (renewal.0, PublisherState { prefer_cycle: false, ..renewal.1 })
        } else {
            let from = if begun.prefer_cycle {
                renewal.1
            } else {
                begun
            };
            let pending = from.pending_turn(now);
            if pending.0 is Some {
                (
                    pending.0,
                    PublisherState {
                        prefer_retry: !pending.1.prefer_retry,
                        prefer_cycle: true,
                        ..pending.1
                    },
                )
            } else {
                let renewal = pending.1.renewal(now);
                (
                    renewal.0,
                    PublisherState {
                        prefer_cycle: if renewal.0 is Some {
                            false
                        } else {
                            renewal.1.prefer_cycle
                        },
                        ..renewal.1
                    },
                )
            }
        }
    }

    /// Whether what is ready at `now` is pending work, not a renewal.
    pub open spec fn serves_pending(self, now: Mono) -> bool {
        let begun = self.cycle_begun(now);
        let renewal = begun.renewal(now);
        if begun.prefer_cycle {
            renewal.0 is None && renewal.1.pending_turn(now).0 is Some
        } else {
            begun.pending_turn(now).0 is Some
        }
    }

    /// Whether an outage forbids a publication at `now`.
    pub open spec fn paused(self, now: Mono) -> bool {
        match self.topology_outage {
            Some(outage) => outage.probe is Some || now.nanos < outage.retry_at.nanos,
            None => false,
        }
    }

    /// The next publication at `now`, and the scheduler after it.
    pub open spec fn scheduled(self, now: Mono) -> (Option<ProviderPublication>, PublisherState) {
        if self.paused(now) {
            (None, self)
        } else {
            let (work, after) = self.ready(now);
            (
                work,
                match (self.topology_outage, work) {
                    (Some(outage), Some(work)) => PublisherState {
                        topology_outage: Some(
                            PublicationTopologyOutage { probe: Some(work.key), ..outage },
                        ),
                        ..after
                    },
                    _ => after,
                },
            )
        }
    }

    /// No lane holds a key that is not resident, and the retry set is bounded.
    pub open spec fn well_formed(self) -> bool {
        &&& self.resident.dom().finite()
        &&& !self.initialized ==> self.resident == Map::<ProviderKey, ProviderIdentity>::empty()
        &&& self.startup.dom().subset_of(self.resident.dom())
        &&& self.additions.dom().subset_of(self.resident.dom())
        &&& self.retries.dom().subset_of(self.resident.dom())
        &&& self.retries.dom().len() <= MAX_PROVIDER_PUBLICATION_RETRIES
    }
}

/// The keys of a map, in ascending order.
pub open spec fn ordered_keys(map: Map<ProviderKey, ProviderIdentity>) -> Seq<ProviderKey> {
    choose|keys: Seq<ProviderKey>| lists_keys(keys, map)
}

/// There is one way to list keys in ascending order.
pub proof fn lemma_ordered_keys(keys: Seq<ProviderKey>, map: Map<ProviderKey, ProviderIdentity>)
    requires
        lists_keys(keys, map),
    ensures
        ordered_keys(map) == keys,
{
    let chosen = ordered_keys(map);
    assert(lists_keys(chosen, map));
    lemma_lists_agree(keys, chosen, map, keys.len() as int);
    if chosen.len() != keys.len() {
        if chosen.len() > keys.len() {
            let extra = chosen[keys.len() as int];
            assert(map.contains_key(extra));
            let i = choose|i: int| 0 <= i < keys.len() && keys[i] == extra;
            assert(chosen[i] == extra);
            assert(rank(chosen[i]) < rank(chosen[keys.len() as int]));
        } else {
            lemma_lists_agree(chosen, keys, map, chosen.len() as int);
            let extra = keys[chosen.len() as int];
            assert(map.contains_key(extra));
            let i = choose|i: int| 0 <= i < chosen.len() && chosen[i] == extra;
            assert(keys[i] == extra);
            assert(rank(keys[i]) < rank(keys[chosen.len() as int]));
        }
    }
    assert(chosen =~= keys);
}

proof fn lemma_lists_agree(
    a: Seq<ProviderKey>,
    b: Seq<ProviderKey>,
    map: Map<ProviderKey, ProviderIdentity>,
    count: int,
)
    requires
        lists_keys(a, map),
        lists_keys(b, map),
        0 <= count <= a.len(),
    ensures
        forall|i: int| 0 <= i < count ==> i < b.len() && #[trigger] a[i] == b[i],
    decreases count,
{
    if count > 0 {
        lemma_lists_agree(a, b, map, count - 1);
        let key = a[count - 1];
        assert(map.contains_key(key));
        let j = choose|j: int| 0 <= j < b.len() && b[j] == key;
        if j < count - 1 {
            assert(a[j] == b[j]);
            assert(rank(a[j]) < rank(a[count - 1]));
        }
        if j > count - 1 {
            let other = b[count - 1];
            assert(map.contains_key(other));
            let k = choose|k: int| 0 <= k < a.len() && a[k] == other;
            assert(rank(b[count - 1]) < rank(b[j]));
            if k < count - 1 {
                assert(a[k] == b[k]);
                assert(rank(b[k]) < rank(b[count - 1]));
            } else if k > count - 1 {
                assert(rank(a[count - 1]) < rank(a[k]));
            }
        }
    }
}

/// Bounded-work publication scheduler for an arbitrarily large resident set.
///
/// Newly resident keys are queued separately from the startup inventory. The
/// two queues alternate within the pending lane: neither waits for the other to
/// drain, whatever the order of their locators. Retries and due renewals
/// alternate with them. One persistent ordered traversal renews the complete
/// set over one third of a lease.
#[derive(Debug)]
pub struct ProviderPublisher {
    pub resident: ProviderSet,
    pub initialized: bool,
    pub startup: ProviderSet,
    pub additions: ProviderSet,
    pub retries: ProviderSet,
    pub retry_at: Mono,
    pub cycle: Option<PublicationCycle>,
    pub next_renewal: Mono,
    pub prefer_cycle: bool,
    pub prefer_retry: bool,
    pub prefer_startup: bool,
    pub topology_outage: Option<PublicationTopologyOutage>,
}

impl View for ProviderPublisher {
    type V = PublisherState;

    open spec fn view(&self) -> PublisherState {
        PublisherState {
            resident: self.resident@,
            initialized: self.initialized,
            startup: self.startup@,
            additions: self.additions@,
            retries: self.retries@,
            retry_at: self.retry_at,
            cycle: match self.cycle {
                Some(cycle) => Some(cycle@),
                None => None,
            },
            next_renewal: self.next_renewal,
            prefer_cycle: self.prefer_cycle,
            prefer_retry: self.prefer_retry,
            prefer_startup: self.prefer_startup,
            topology_outage: self.topology_outage,
        }
    }
}

impl ProviderPublisher {
    /// No lane holds a key that is not resident, the retry set is bounded, and
    /// a renewal traversal in progress has a key left.
    pub open spec fn well_formed(&self) -> bool {
        &&& self@.well_formed()
        &&& self.cycle matches Some(cycle) ==> cycle.well_formed()
    }

    /// A scheduler that has seen no resident set yet.
    pub fn new(now: Mono) -> (publisher: Self)
        ensures
            publisher@ == PublisherState::initial(now),
            publisher.well_formed(),
    {
        ProviderPublisher {
            resident: ProviderSet::default(),
            initialized: false,
            startup: ProviderSet::default(),
            additions: ProviderSet::default(),
            retries: ProviderSet::default(),
            retry_at: now,
            cycle: None,
            next_renewal: now.plus(PROVIDER_RENEWAL_PERIOD),
            prefer_cycle: false,
            prefer_retry: false,
            prefer_startup: true,
            topology_outage: None,
        }
    }

    /// Adopt the resident set of a new snapshot.
    pub fn install(&mut self, resident: ProviderSet, now: Mono)
        requires
            old(self).well_formed(),
        ensures
            final(self)@ == old(self)@.installed(resident@, now),
            final(self).well_formed(),
    {
        proof {
            resident.leases.lemma_size();
        }
        if self.initialized {
            let added = resident.leases.difference(&self.resident.leases);
            self.startup.leases = self.startup.leases.intersect(&resident.leases);
            self.additions.leases = self.additions.leases.intersect(&resident.leases);
            self.additions.leases.union(&added);
            proof {
                vstd::set_lib::lemma_set_subset_finite(self.resident@.dom(), self.retries@.dom());
                vstd::set_lib::lemma_len_subset(
                    self.retries@.restrict(resident@.dom()).dom(),
                    self.retries@.dom(),
                );
            }
            self.retries.leases = self.retries.leases.intersect(&resident.leases);
        } else {
            self.initialized = true;
            self.startup = resident.clone();
            self.next_renewal = now.plus(PROVIDER_RENEWAL_PERIOD);
        }
        self.resident = resident;
    }

    /// Operational counts.
    pub fn progress(&self) -> (progress: PublicationProgress)
        ensures
            progress.resident == self@.resident.dom().len(),
            progress.startup_pending == self@.startup.dom().len(),
            progress.incremental_pending == self@.additions.dom().len(),
            progress.retry_pending == self@.retries.dom().len(),
            progress.renewal_remaining == match self@.cycle {
                Some(cycle) => cycle.remaining,
                None => 0,
            },
            progress.topology_paused == (self@.topology_outage is Some),
    {
        PublicationProgress {
            resident: self.resident.len(),
            startup_pending: self.startup.len(),
            incremental_pending: self.additions.len(),
            retry_pending: self.retries.len(),
            renewal_remaining: match &self.cycle {
                Some(cycle) => cycle.remaining,
                None => 0,
            },
            topology_paused: self.topology_outage.is_some(),
        }
    }

    /// Queue one failed publication without allowing an outage to duplicate
    /// the whole resident set in retry state. False makes degraded coverage
    /// explicit rather than silently growing memory.
    pub fn retry(&mut self, key: ProviderKey, now: Mono) -> (queued: bool)
        requires
            old(self).well_formed(),
        ensures
            queued == !old(self)@.retry_refused(key),
            final(self)@ == old(self)@.retried(key, now),
            final(self).well_formed(),
    {
        if self.retries.len() >= MAX_PROVIDER_PUBLICATION_RETRIES && !self.retries.contains(&key) {
            return false;
        }
        match self.resident.identity(&key) {
            None => true,
            Some(identity) => {
                let was_empty = self.retries.leases.is_empty();
                self.retries.leases.insert(key, identity);
                if was_empty {
                    self.retry_at = now.plus(RETRY_BACKOFF_BASE);
                }
                true
            },
        }
    }

    fn preserve_for_topology_retry(&mut self, work: ProviderPublication)
        requires
            old(self).well_formed(),
        ensures
            final(self)@ == old(self)@.preserved(work),
            final(self).well_formed(),
    {
        match self.resident.identity(&work.key) {
            None => {},
            Some(identity) => match work.lane {
                PublicationLane::Startup => self.startup.leases.insert(work.key, identity),
                PublicationLane::Incremental => self.additions.leases.insert(work.key, identity),
            },
        }
    }

    /// The delay before the next probe after `attempts` failed ones.
    pub fn topology_backoff(attempts: u32) -> (delay: u64)
        ensures
            delay == topology_delay(attempts as nat),
    {
        let doublings: u32 = if attempts == 0 {
            0
        } else if attempts <= 7 {
            attempts - 1
        } else {
            6
        };
        let mut delay: u64 = RETRY_BACKOFF_BASE;
        let mut i: u32 = 0;
        proof {
            vstd::arithmetic::power2::lemma2_to64();
        }
        while i < doublings
            invariant
                i <= doublings <= 6,
                delay == RETRY_BACKOFF_BASE as nat * vstd::arithmetic::power2::pow2(i as nat),
                vstd::arithmetic::power2::pow2(i as nat) <= 64,
            decreases doublings - i,
        {
            proof {
                vstd::arithmetic::power2::lemma_pow2_unfold((i + 1) as nat);
                vstd::arithmetic::power2::lemma2_to64();
                if i + 1 < 6 {
                    vstd::arithmetic::power2::lemma_pow2_strictly_increases((i + 1) as nat, 6);
                }
            }
            proof {
                let base = RETRY_BACKOFF_BASE as nat;
                let power = vstd::arithmetic::power2::pow2(i as nat);
                assert(base * (2 * power) == (base * power) * 2) by (nonlinear_arith);
                assert(base * power <= base * 64) by (nonlinear_arith)
                    requires
                        power <= 64,
                ;
            }
            delay = delay * 2;
            i = i + 1;
        }
        if delay <= RETRY_BACKOFF_CAP {
            delay
        } else {
            RETRY_BACKOFF_CAP
        }
    }

    /// Take the outcome of one publication into account.
    pub fn complete(
        &mut self,
        work: ProviderPublication,
        result: PublicationResult,
        now: Mono,
    ) -> (effect: PublicationEffect)
        requires
            old(self).well_formed(),
        ensures
            effect == old(self)@.effect(work, result),
            final(self)@ == old(self)@.completed(work, result, now),
            final(self).well_formed(),
    {
        let key = work.key;
        let outage_before = self.topology_outage;
        match result {
            PublicationResult::Published => {
                self.topology_outage = None;
                PublicationEffect {
                    topology_outage_started: false,
                    topology_recovered: outage_before.is_some(),
                    retry_budget_full: false,
                }
            },
            PublicationResult::RemoteRejected => {
                self.topology_outage = None;
                let queued = self.retry(key, now);
                PublicationEffect {
                    topology_outage_started: false,
                    topology_recovered: outage_before.is_some(),
                    retry_budget_full: !queued,
                }
            },
            PublicationResult::NoAuthenticatedRemoteReplica => {
                self.preserve_for_topology_retry(work);
                let outage = match outage_before {
                    Some(outage) => {
                        let probed = match outage.probe {
                            Some(probe) => same(&probe, &key),
                            None => false,
                        };
                        if probed {
                            let attempts: u32 = if outage.attempts < u32::MAX {
                                outage.attempts + 1
                            } else {
                                outage.attempts
                            };
                            PublicationTopologyOutage {
                                attempts,
                                retry_at: now.plus(Self::topology_backoff(attempts)),
                                probe: None,
                            }
                        } else {
                            // Other attempts from the bounded flight before the
                            // outage may finish after the first one started it;
                            // only the eventual probe advances the backoff.
                            outage
                        }
                    },
                    None => PublicationTopologyOutage {
                        attempts: 1,
                        retry_at: now.plus(Self::topology_backoff(1)),
                        probe: None,
                    },
                };
                self.topology_outage = Some(outage);
                PublicationEffect {
                    topology_outage_started: outage_before.is_none(),
                    topology_recovered: false,
                    retry_budget_full: false,
                }
            },
        }
    }

    /// Take the next resident key off a pending set.
    pub fn pop_pending(
        pending: &mut ProviderSet,
        resident: &ProviderSet,
        lane: PublicationLane,
    ) -> (work: Option<ProviderPublication>)
        ensures
            work == publication(next_pending(old(pending)@, resident@), resident@, lane),
            final(pending)@ == still_pending(
                old(pending)@,
                next_pending(old(pending)@, resident@),
            ),
    {
        let ghost before = pending@;
        loop
            invariant
                forall|key: ProviderKey| #[trigger]
                    pending@.contains_key(key) ==> before.contains_key(key) && pending@[key]
                        == before[key],
                forall|key: ProviderKey, other: ProviderKey|
                    before.contains_key(key) && !pending@.contains_key(key) && pending@.contains_key(
                        other,
                    ) ==> rank(key) < rank(other),
                forall|key: ProviderKey| #[trigger]
                    before.contains_key(key) && !pending@.contains_key(key) ==> !resident@.contains_key(
                        key,
                    ),
                before == old(pending)@,
            decreases pending@.dom().len(),
        {
            let ghost now = pending@;
            let ghost live = before.restrict(resident@.dom());
            match pending.leases.first() {
                None => {
                    proof {
                        assert forall|key: ProviderKey| !is_least(live, key) by {
                            if live.contains_key(key) {
                                assert(before.contains_key(key));
                                assert(!now.contains_key(key));
                            }
                        }
                    }
                    return None;
                },
                Some(key) => {
                    let _ = pending.leases.remove(&key);
                    match resident.leases.get(&key) {
                        Some(identity) => {
                            proof {
                                assert(is_least(live, key)) by {
                                    assert(live.contains_key(key));
                                    assert forall|other: ProviderKey| #[trigger]
                                        live.contains_key(other) implies rank(key) <= rank(other) by {
                                        assert(before.contains_key(other));
                                        assert(now.contains_key(other));
                                    }
                                }
                                lemma_next_pending(before, resident@, key);
                                assert(pending@ =~= still_pending(before, Some(key))) by {
                                    assert forall|other: ProviderKey|
                                        pending@.contains_key(other) == still_pending(
                                            before,
                                            Some(key),
                                        ).contains_key(other) by {
                                        if before.contains_key(other) && now.contains_key(other)
                                            && other != key {
                                            if rank(other) == rank(key) {
                                                lemma_rank_injective(other, key);
                                            }
                                        }
                                    }
                                }
                            }
                            return Some(ProviderPublication { key, identity, lane });
                        },
                        None => {
                            assert forall|gone: ProviderKey, other: ProviderKey|
                                before.contains_key(gone) && !pending@.contains_key(gone)
                                    && pending@.contains_key(other) implies rank(gone) < rank(other) by {
                                if gone == key {
                                    assert(now.contains_key(other));
                                    if rank(other) == rank(key) {
                                        lemma_rank_injective(other, key);
                                    }
                                }
                            }
                        },
                    }
                },
            }
        }
    }

    fn start_cycle_if_due(&mut self, now: Mono)
        requires
            old(self).well_formed(),
        ensures
            final(self)@ == old(self)@.cycle_begun(now),
            final(self).well_formed(),
    {
        if self.cycle.is_some() || !self.initialized || now.nanos < self.next_renewal.nanos {
            return ;
        }
        if self.resident.leases.is_empty() {
            self.next_renewal = now.plus(PROVIDER_RENEWAL_PERIOD);
            return ;
        }
        let keys = self.resident.leases.keys();
        let total: u64 = keys.len() as u64;
        proof {
            lemma_ordered_keys(keys@, self.resident@);
            if total == 0 {
                assert(self.resident@ =~= Map::<ProviderKey, ProviderIdentity>::empty()) by {
                    assert forall|key: ProviderKey| !self.resident@.contains_key(key) by {
                        if self.resident@.contains_key(key) {
                            assert(keys@.contains(key));
                        }
                    }
                }
            }
        }
        self.cycle = Some(
            PublicationCycle { keys, started: now, total, remaining: total, next_due: now },
        );
    }

    fn pop_arrival(&mut self) -> (work: Option<ProviderPublication>)
        requires
            old(self).well_formed(),
        ensures
            work == old(self)@.arrival().0,
            final(self)@ == old(self)@.arrival().1,
            final(self).well_formed(),
    {
        let startup_first = self.prefer_startup;
        let first = if startup_first {
            Self::pop_pending(&mut self.startup, &self.resident, PublicationLane::Startup)
        } else {
            Self::pop_pending(&mut self.additions, &self.resident, PublicationLane::Incremental)
        };
        let next = match first {
            Some(work) => Some(work),
            None => if startup_first {
                Self::pop_pending(&mut self.additions, &self.resident, PublicationLane::Incremental)
            } else {
                Self::pop_pending(&mut self.startup, &self.resident, PublicationLane::Startup)
            },
        };
        if let Some(work) = &next {
            self.prefer_startup = work.lane == PublicationLane::Incremental;
        }
        next
    }

    fn pop_retry(&mut self, now: Mono) -> (work: Option<ProviderPublication>)
        requires
            old(self).well_formed(),
        ensures
            work == old(self)@.retry_turn(now).0,
            final(self)@ == old(self)@.retry_turn(now).1,
            final(self).well_formed(),
    {
        if now.nanos < self.retry_at.nanos {
            return None;
        }
        proof {
            let key = next_pending(self.retries@, self.resident@);
            vstd::set_lib::lemma_set_subset_finite(self.resident@.dom(), self.retries@.dom());
            vstd::set_lib::lemma_len_subset(
                still_pending(self.retries@, key).dom(),
                self.retries@.dom(),
            );
        }
        let work = Self::pop_pending(&mut self.retries, &self.resident, PublicationLane::Startup);
        if work.is_some() {
            self.retry_at = now.plus(RETRY_BACKOFF_BASE);
        }
        work
    }

    fn pop_cycle(&mut self, now: Mono) -> (work: Option<ProviderPublication>)
        requires
            old(self).well_formed(),
        ensures
            work == old(self)@.renewal(now).0,
            final(self)@ == old(self)@.renewal(now).1,
            final(self).well_formed(),
    {
        let mut cycle = match self.cycle.take() {
            Some(cycle) => cycle,
            None => {
                return None;
            },
        };
        let ghost start = cycle@;
        loop
            invariant
                self.cycle is None,
                self.well_formed(),
                cycle.well_formed(),
                cycle.started == start.started,
                cycle_turn(cycle@, self.resident@, now) == cycle_turn(start, self.resident@, now),
                old(self)@.cycle == Some(start),
                self@ == (PublisherState { cycle: None, ..old(self)@ }),
            decreases cycle.remaining,
        {
            if now.nanos < cycle.next_due.nanos {
                self.cycle = Some(cycle);
                return None;
            }
            let index: usize = cycle.keys.len() - cycle.remaining as usize;
            let key = cycle.keys[index];
            let quotient: u64 = PROVIDER_RENEWAL_PERIOD / cycle.total;
            let interval: u64 = if quotient >= 1 {
                quotient
            } else {
                1
            };
            cycle.remaining = cycle.remaining - 1;
            cycle.next_due = cycle.next_due.plus(interval);
            let completed = cycle.remaining == 0;
            if completed {
                self.next_renewal = cycle.started.plus(PROVIDER_RENEWAL_PERIOD);
            }
            match self.resident.identity(&key) {
                Some(identity) => {
                    if !completed {
                        self.cycle = Some(cycle);
                    }
                    return Some(
                        ProviderPublication { key, identity, lane: PublicationLane::Startup },
                    );
                },
                None => {
                    if completed {
                        return None;
                    }
                },
            }
        }
    }

    fn pop_scheduled(&mut self, now: Mono) -> (work: Option<ProviderPublication>)
        requires
            old(self).well_formed(),
        ensures
            work == old(self)@.pending_turn(now).0,
            final(self)@ == old(self)@.pending_turn(now).1,
            final(self).well_formed(),
    {
        if self.prefer_retry {
            let retry = self.pop_retry(now);
            if retry.is_some() {
                retry
            } else {
                self.pop_arrival()
            }
        } else {
            let arrival = self.pop_arrival();
            if arrival.is_some() {
                arrival
            } else {
                self.pop_retry(now)
            }
        }
    }

    fn next_ready(&mut self, now: Mono) -> (work: Option<ProviderPublication>)
        requires
            old(self).well_formed(),
        ensures
            work == old(self)@.ready(now).0,
            final(self)@ == old(self)@.ready(now).1,
            final(self).well_formed(),
    {
        self.start_cycle_if_due(now);
        if self.prefer_cycle {
            let renewal = self.pop_cycle(now);
            if renewal.is_some() {
                self.prefer_cycle = false;
                return renewal;
            }
        }
        let pending = self.pop_scheduled(now);
        if pending.is_some() {
            self.prefer_retry = !self.prefer_retry;
            self.prefer_cycle = true;
            return pending;
        }
        let renewal = self.pop_cycle(now);
        if renewal.is_some() {
            self.prefer_cycle = false;
        }
        renewal
    }

    /// The next publication to attempt, if one may be attempted now.
    pub fn next(&mut self, now: Mono) -> (work: Option<ProviderPublication>)
        requires
            old(self).well_formed(),
        ensures
            work == old(self)@.scheduled(now).0,
            final(self)@ == old(self)@.scheduled(now).1,
            final(self).well_formed(),
    {
        let outage = self.topology_outage;
        if let Some(outage) = &outage {
            if outage.probe.is_some() || now.nanos < outage.retry_at.nanos {
                return None;
            }
        }
        let next = self.next_ready(now);
        if let (Some(outage), Some(work)) = (outage, next) {
            self.topology_outage = Some(
                PublicationTopologyOutage {
                    attempts: outage.attempts,
                    retry_at: outage.retry_at,
                    probe: Some(work.key),
                },
            );
        }
        next
    }
}

/// A finite map with a key has a least key.
pub proof fn lemma_least_exists(map: Map<ProviderKey, ProviderIdentity>)
    requires
        map.dom().finite(),
        map != Map::<ProviderKey, ProviderIdentity>::empty(),
    ensures
        exists|key: ProviderKey| is_least(map, key),
    decreases map.dom().len(),
{
    if map.dom() =~= Set::empty() {
        assert(map =~= Map::<ProviderKey, ProviderIdentity>::empty());
    } else {
        let key = map.dom().choose();
        let rest = map.remove(key);
        if rest == Map::<ProviderKey, ProviderIdentity>::empty() {
            assert forall|other: ProviderKey| #[trigger] map.contains_key(other) implies rank(key)
                <= rank(other) by {
                if other != key {
                    assert(rest.contains_key(other));
                }
            }
            assert(is_least(map, key));
        } else {
            lemma_least_exists(rest);
            let least = choose|least: ProviderKey| is_least(rest, least);
            let first = if rank(key) < rank(least) {
                key
            } else {
                least
            };
            assert forall|other: ProviderKey| #[trigger] map.contains_key(other) implies rank(first)
                <= rank(other) by {
                if other != key {
                    assert(rest.contains_key(other));
                }
            }
            assert(rest.contains_key(least));
            assert(is_least(map, first));
        }
    }
}

/// A pending set of resident keys hands out its least key and keeps the rest.
pub proof fn law_pending_hands_out_one_key(
    pending: Map<ProviderKey, ProviderIdentity>,
    resident: Map<ProviderKey, ProviderIdentity>,
)
    requires
        pending.dom().finite(),
        pending.dom().subset_of(resident.dom()),
    ensures
        pending == Map::<ProviderKey, ProviderIdentity>::empty() ==> next_pending(pending, resident)
            is None,
        pending != Map::<ProviderKey, ProviderIdentity>::empty() ==> {
            &&& next_pending(pending, resident) matches Some(key) && is_least(pending, key)
            &&& still_pending(pending, next_pending(pending, resident)) == pending.remove(
                next_pending(pending, resident)->0,
            )
        },
{
    let live = pending.restrict(resident.dom());
    assert(live =~= pending);
    if pending == Map::<ProviderKey, ProviderIdentity>::empty() {
        assert forall|key: ProviderKey| !is_least(live, key) by {
            assert(!pending.contains_key(key));
        }
    } else {
        lemma_least_exists(pending);
        let key = choose|key: ProviderKey| is_least(pending, key);
        lemma_next_pending(pending, resident, key);
        assert forall|other: ProviderKey|
            still_pending(pending, Some(key)).contains_key(other) == pending.remove(
                key,
            ).contains_key(other) by {
            if pending.contains_key(other) && rank(other) == rank(key) {
                lemma_rank_injective(other, key);
            }
        }
        assert(still_pending(pending, Some(key)) =~= pending.remove(key));
    }
}

/// While an outage waits for its probe or its time, nothing is published and
/// nothing changes.
pub proof fn law_outage_pauses_publication(state: PublisherState, now: Mono)
    requires
        state.paused(now),
    ensures
        state.scheduled(now) == (None::<ProviderPublication>, state),
{
}

/// One probe at a time: once an outage has handed out a publication, it hands
/// out nothing more until that publication has an outcome.
pub proof fn law_outage_probes_once(state: PublisherState, now: Mono, later: Mono)
    requires
        state.topology_outage is Some,
        state.scheduled(now).0 is Some,
    ensures
        state.scheduled(now).1.scheduled(later).0 is None,
{
}

/// A publication that found no authenticated replica waits in its lane again,
/// and the network counts as unreachable until a remote peer answers.
pub proof fn law_topology_failure_keeps_work(
    state: PublisherState,
    work: ProviderPublication,
    now: Mono,
)
    requires
        state.resident.contains_key(work.key),
    ensures
        ({
            let after = state.completed(
                work,
                PublicationResult::NoAuthenticatedRemoteReplica,
                now,
            );
            &&& work.lane == PublicationLane::Startup ==> after.startup == state.startup.insert(
                work.key,
                state.resident[work.key],
            ) && after.additions == state.additions
            &&& work.lane == PublicationLane::Incremental ==> after.additions
                == state.additions.insert(work.key, state.resident[work.key]) && after.startup
                == state.startup
            &&& after.retries == state.retries
            &&& after.topology_outage is Some
        }),
{
}

/// Every key that a snapshot adds is pending afterwards.
pub proof fn law_new_residents_are_pending(
    state: PublisherState,
    resident: Map<ProviderKey, ProviderIdentity>,
    now: Mono,
    key: ProviderKey,
)
    requires
        state.well_formed(),
        resident.contains_key(key),
        !state.resident.contains_key(key),
    ensures
        state.initialized ==> state.installed(resident, now).additions.contains_key(key),
        !state.initialized ==> state.installed(resident, now).startup.contains_key(key),
{
}

/// No lane keeps a key that a snapshot dropped.
pub proof fn law_dropped_residents_are_forgotten(
    state: PublisherState,
    resident: Map<ProviderKey, ProviderIdentity>,
    now: Mono,
    key: ProviderKey,
)
    requires
        state.well_formed(),
        !resident.contains_key(key),
    ensures
        !state.installed(resident, now).startup.contains_key(key),
        !state.installed(resident, now).additions.contains_key(key),
        !state.installed(resident, now).retries.contains_key(key),
{
}

/// With startup and incremental work pending, two arrivals in a row serve one
/// of each: neither queue waits for the other to drain.
pub proof fn law_arrivals_alternate(state: PublisherState)
    requires
        state.well_formed(),
        state.startup != Map::<ProviderKey, ProviderIdentity>::empty(),
        state.additions != Map::<ProviderKey, ProviderIdentity>::empty(),
    ensures
        ({
            let (first, after) = state.arrival();
            let (second, _) = after.arrival();
            &&& first is Some
            &&& second is Some
            &&& (first->0).lane == PublicationLane::Startup <==> state.prefer_startup
            &&& (first->0).lane != (second->0).lane
        }),
{
    vstd::set_lib::lemma_set_subset_finite(state.resident.dom(), state.startup.dom());
    vstd::set_lib::lemma_set_subset_finite(state.resident.dom(), state.additions.dom());
    law_pending_hands_out_one_key(state.startup, state.resident);
    law_pending_hands_out_one_key(state.additions, state.resident);
}

/// The key that a traversal renews is resident.
proof fn lemma_cycle_turn_resident(
    cycle: CycleState,
    resident: Map<ProviderKey, ProviderIdentity>,
    now: Mono,
)
    ensures
        cycle_turn(cycle, resident, now).0 matches Some(key) ==> resident.contains_key(key),
    decreases cycle.remaining,
{
    if cycle.remaining > 0 && now.nanos >= cycle.next_due.nanos {
        let rest = CycleState {
            remaining: (cycle.remaining - 1) as nat,
            next_due: cycle.next_due.later(renewal_interval(cycle.keys.len())),
            ..cycle
        };
        lemma_cycle_turn_resident(rest, resident, now);
    }
}

proof fn lemma_pending_turn(state: PublisherState, now: Mono)
    requires
        state.well_formed(),
    ensures
        ({
            let (work, after) = state.pending_turn(now);
            &&& after.resident == state.resident
            &&& after.cycle == state.cycle
            &&& after.initialized == state.initialized
            &&& after.prefer_cycle == state.prefer_cycle
            &&& after.next_renewal == state.next_renewal
            &&& work matches Some(work) ==> {
                &&& state.resident.contains_key(work.key)
                &&& work.identity == state.resident[work.key]
            }
            &&& forall|key: ProviderKey| #[trigger]
                state.startup.contains_key(key) && !after.startup.contains_key(key) ==> work
                    is Some && (work->0).key == key
            &&& forall|key: ProviderKey| #[trigger]
                state.additions.contains_key(key) && !after.additions.contains_key(key) ==> work
                    is Some && (work->0).key == key
            &&& forall|key: ProviderKey| #[trigger]
                state.retries.contains_key(key) && !after.retries.contains_key(key) ==> work is Some
                    && (work->0).key == key
        }),
{
    vstd::set_lib::lemma_set_subset_finite(state.resident.dom(), state.startup.dom());
    vstd::set_lib::lemma_set_subset_finite(state.resident.dom(), state.additions.dom());
    vstd::set_lib::lemma_set_subset_finite(state.resident.dom(), state.retries.dom());
    law_pending_hands_out_one_key(state.startup, state.resident);
    law_pending_hands_out_one_key(state.additions, state.resident);
    law_pending_hands_out_one_key(state.retries, state.resident);
    assert(state.resident.dom().contains(next_pending(state.startup, state.resident)->0) || state.startup
        == Map::<ProviderKey, ProviderIdentity>::empty()) by {
        if state.startup != Map::<ProviderKey, ProviderIdentity>::empty() {
            assert(state.startup.dom().contains(next_pending(state.startup, state.resident)->0));
        }
    }
    assert(state.resident.dom().contains(next_pending(state.additions, state.resident)->0)
        || state.additions == Map::<ProviderKey, ProviderIdentity>::empty()) by {
        if state.additions != Map::<ProviderKey, ProviderIdentity>::empty() {
            assert(state.additions.dom().contains(next_pending(state.additions, state.resident)->0));
        }
    }
    assert(state.resident.dom().contains(next_pending(state.retries, state.resident)->0) || state.retries
        == Map::<ProviderKey, ProviderIdentity>::empty()) by {
        if state.retries != Map::<ProviderKey, ProviderIdentity>::empty() {
            assert(state.retries.dom().contains(next_pending(state.retries, state.resident)->0));
        }
    }
}

/// Only resident keys are published, each with the identity behind it, and a
/// pending key leaves its queue only by being published.
pub proof fn law_scheduling_loses_nothing(state: PublisherState, now: Mono)
    requires
        state.well_formed(),
    ensures
        ({
            let (work, after) = state.scheduled(now);
            &&& work matches Some(work) ==> {
                &&& state.resident.contains_key(work.key)
                &&& work.identity == state.resident[work.key]
            }
            &&& after.resident == state.resident
            &&& forall|key: ProviderKey| #[trigger]
                state.startup.contains_key(key) && !after.startup.contains_key(key) ==> work
                    is Some && (work->0).key == key
            &&& forall|key: ProviderKey| #[trigger]
                state.additions.contains_key(key) && !after.additions.contains_key(key) ==> work
                    is Some && (work->0).key == key
            &&& forall|key: ProviderKey| #[trigger]
                state.retries.contains_key(key) && !after.retries.contains_key(key) ==> work is Some
                    && (work->0).key == key
        }),
{
    let begun = state.cycle_begun(now);
    let renewal = begun.renewal(now);
    if begun.cycle is Some {
        lemma_cycle_turn_resident(begun.cycle->0, begun.resident, now);
    }
    let from = if begun.prefer_cycle {
        renewal.1
    } else {
        begun
    };
    lemma_pending_turn(from, now);
    let pending = from.pending_turn(now);
    if pending.1.cycle is Some {
        lemma_cycle_turn_resident(pending.1.cycle->0, pending.1.resident, now);
    }
}

/// Nothing is handed out only where nothing waits: unless an outage forbids it,
/// a call that hands out nothing leaves no startup or incremental work, and no
/// retry that is due.
pub proof fn law_idle_means_nothing_waits(state: PublisherState, now: Mono)
    requires
        state.well_formed(),
        !state.paused(now),
        state.scheduled(now).0 is None,
    ensures
        state.startup == Map::<ProviderKey, ProviderIdentity>::empty(),
        state.additions == Map::<ProviderKey, ProviderIdentity>::empty(),
        state.retries != Map::<ProviderKey, ProviderIdentity>::empty() ==> now.nanos
            < state.retry_at.nanos,
{
    vstd::set_lib::lemma_set_subset_finite(state.resident.dom(), state.startup.dom());
    vstd::set_lib::lemma_set_subset_finite(state.resident.dom(), state.additions.dom());
    vstd::set_lib::lemma_set_subset_finite(state.resident.dom(), state.retries.dom());
    law_pending_hands_out_one_key(state.startup, state.resident);
    law_pending_hands_out_one_key(state.additions, state.resident);
    law_pending_hands_out_one_key(state.retries, state.resident);
}

/// Sustained arrivals do not starve renewal: after pending work was served, a
/// renewal that is due is served next.
pub proof fn law_due_renewal_follows_pending_work(state: PublisherState, now: Mono, later: Mono)
    requires
        state.well_formed(),
        state.serves_pending(now),
        state.ready(now).1.cycle_begun(later).renewal(later).0 is Some,
    ensures
        state.ready(now).1.ready(later).0 == state.ready(now).1.cycle_begun(later).renewal(later).0,
        !state.ready(now).1.ready(later).1.prefer_cycle,
{
}

/// A traversal of any number of keys, each renewed when it is due, takes no
/// longer than the renewal period, so that a first sweep leaves every initial
/// lease a full renewal period before it expires.
pub proof fn law_renewal_fits_its_period(total: nat)
    requires
        0 < total <= PROVIDER_RENEWAL_PERIOD,
    ensures
        total * renewal_interval(total) <= PROVIDER_RENEWAL_PERIOD,
        PROVIDER_RENEWAL_PERIOD + (total - 1) * renewal_interval(total) <= PROVIDER_LEASE_LIFETIME
            - PROVIDER_RENEWAL_PERIOD,
{
    let period = PROVIDER_RENEWAL_PERIOD as nat;
    let interval = renewal_interval(total);
    assert(period / total >= 1 && total * (period / total) <= period) by (nonlinear_arith)
        requires
            0 < total <= period,
    ;
    assert((total - 1) * interval <= total * interval) by (nonlinear_arith)
        requires
            interval >= 0,
    ;
}

} // verus!
