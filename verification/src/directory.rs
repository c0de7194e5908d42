//! The receiver-local directory of provider leases.

use vstd::prelude::*;

use crate::clock::Mono;
use crate::key_map::{ascending, contents, is_least, lemma_contents, KeyMap};
use crate::keys::{
    big_endian, complement, difference, flip, key_space, lemma_big_endian_concat,
    lemma_big_endian_injective, lemma_complement, lemma_complement_twice, lemma_eight_bytes,
    lemma_same_bytes, lemma_xor_injective, lemma_xor_twice, position, rank, read_be, write_be, xor,
    Position,
};
use crate::provider::{PeerId, ProviderKey, ProviderToken, PROVIDER_LEASE_LIFETIME};
use crate::segments::{is_joined, join, second_segments, split};

verus! {

/// Maximum fan-out retained and returned for one exact rendezvous key.
pub const MAX_PROVIDERS_PER_KEY: usize = 64;

/// Receiver-local aggregate soft bound. Exact-key responsibility decides which
/// membership survives when a full directory receives a closer key.
pub const MAX_PROVIDER_MEMBERSHIPS: usize = 16_777_216;

/// Bound on the opportunistic expiry reclamation performed by one call.
pub const MAX_EXPIRED_PROVIDER_MEMBERSHIPS_PER_CALL: usize = 64;

/// One provider of one rendezvous key.
pub type Membership = (ProviderKey, PeerId);

/// When a membership expires: the deadline in nanoseconds, the rendezvous key
/// and the provider.
pub type Deadline = (u64, ProviderKey, PeerId);

/// What is kept of one membership.
#[derive(Clone, Copy, Debug, PartialEq, Eq)]
pub struct Lease {
    pub expires_at: Mono,
    pub token: ProviderToken,
}

/// The key under which a membership is kept: the first is the one farthest from
/// `local`. The difference to `local` identifies one exact rendezvous key.
pub open spec fn membership_bytes(local: PeerId, membership: Membership) -> Seq<u8> {
    complement(xor(membership.0@, local@)) + complement(membership.1@)
}

/// How far a membership is from `local`: first the distance of its rendezvous
/// key, then the number of its provider.
pub open spec fn remoteness(local: PeerId, membership: Membership) -> nat {
    big_endian(xor(membership.0@, local@)) * key_space(32) + rank(membership.1)
}

/// Whether `key` is the index entry of a deadline: the deadline in big-endian
/// notation, the rendezvous key and the provider.
pub open spec fn is_deadline_key(key: Seq<u8>, deadline: Deadline) -> bool {
    &&& key.len() == 72
    &&& big_endian(key.subrange(0, 8)) == deadline.0
    &&& key.subrange(8, 40) == deadline.1@
    &&& key.subrange(40, 72) == deadline.2@
}

/// The order of deadlines: by time, then by rendezvous key, then by provider.
pub open spec fn deadline_order(deadline: Deadline) -> nat {
    (deadline.0 as nat * key_space(32) + rank(deadline.1)) * key_space(32) + rank(deadline.2)
}

/// Memberships are kept in the order of descending remoteness.
pub proof fn lemma_membership_order(local: PeerId, membership: Membership)
    ensures
        big_endian(membership_bytes(local, membership)) + remoteness(local, membership) + 1
            == key_space(64),
{
    let distance = xor(membership.0@, local@);
    let provider = membership.1@;
    assert(membership_bytes(local, membership) =~= complement(distance + provider));
    lemma_complement(distance + provider);
    lemma_big_endian_concat(distance, provider);
}

/// No two memberships share a key.
pub proof fn lemma_membership_injective(local: PeerId, a: Membership, b: Membership)
    requires
        membership_bytes(local, a) == membership_bytes(local, b),
    ensures
        a == b,
{
    let bytes = membership_bytes(local, a);
    assert(bytes.subrange(0, 32) =~= complement(xor(a.0@, local@)));
    assert(bytes.subrange(0, 32) =~= complement(xor(b.0@, local@)));
    assert(bytes.subrange(32, 64) =~= complement(a.1@));
    assert(bytes.subrange(32, 64) =~= complement(b.1@));
    lemma_complement_twice(xor(a.0@, local@));
    lemma_complement_twice(xor(b.0@, local@));
    lemma_complement_twice(a.1@);
    lemma_complement_twice(b.1@);
    lemma_xor_injective(a.0@, b.0@, local@);
    lemma_same_bytes(a.0, b.0);
    lemma_same_bytes(a.1, b.1);
}

/// Deadlines are kept in their order.
pub proof fn lemma_deadline_order(key: Seq<u8>, deadline: Deadline)
    requires
        is_deadline_key(key, deadline),
    ensures
        big_endian(key) == deadline_order(deadline),
{
    let time = key.subrange(0, 8);
    assert(key =~= (time + deadline.1@) + deadline.2@);
    lemma_big_endian_concat(time + deadline.1@, deadline.2@);
    lemma_big_endian_concat(time, deadline.1@);
}

/// Each deadline has one index entry, and each entry one deadline.
pub proof fn lemma_deadline_injective(a: Seq<u8>, b: Seq<u8>, x: Deadline, y: Deadline)
    requires
        is_deadline_key(a, x),
        is_deadline_key(b, y),
    ensures
        a == b <==> x == y,
{
    if a == b {
        lemma_same_bytes(x.1, y.1);
        lemma_same_bytes(x.2, y.2);
    }
    if x == y {
        lemma_big_endian_injective(a.subrange(0, 8), b.subrange(0, 8));
        assert(a =~= a.subrange(0, 8) + a.subrange(8, 40) + a.subrange(40, 72));
        assert(b =~= b.subrange(0, 8) + b.subrange(8, 40) + b.subrange(40, 72));
    }
}

/// The leases that a membership index holds.
pub open spec fn leases_of(local: PeerId, index: Map<[u8; 64], Lease>) -> Map<Membership, Lease> {
    Map::new(
        |membership: Membership|
            exists|key: [u8; 64]| #[trigger]
                index.contains_key(key) && key@ == membership_bytes(local, membership),
        |membership: Membership|
            index[choose|key: [u8; 64]| #[trigger]
                index.contains_key(key) && key@ == membership_bytes(local, membership)],
    )
}

/// The deadlines that a deadline index holds.
pub open spec fn deadlines_of(index: Map<[u8; 72], ()>) -> Set<Deadline> {
    Set::new(
        |deadline: Deadline|
            exists|key: [u8; 72]| #[trigger]
                index.contains_key(key) && is_deadline_key(key@, deadline),
    )
}

/// Whether every index key is the key of a membership.
pub open spec fn memberships_only(local: PeerId, index: Map<[u8; 64], Lease>) -> bool {
    forall|key: [u8; 64]| #[trigger]
        index.contains_key(key) ==> exists|membership: Membership|
            key@ == #[trigger] membership_bytes(local, membership)
}

/// Whether every index key is the key of a deadline.
pub open spec fn deadlines_only(index: Map<[u8; 72], ()>) -> bool {
    forall|key: [u8; 72]| #[trigger]
        index.contains_key(key) ==> exists|deadline: Deadline| #[trigger]
            is_deadline_key(key@, deadline)
}

/// A membership is leased where its key is held.
pub proof fn lemma_leased(
    local: PeerId,
    index: Map<[u8; 64], Lease>,
    key: [u8; 64],
    membership: Membership,
)
    requires
        key@ == membership_bytes(local, membership),
    ensures
        leases_of(local, index).contains_key(membership) == index.contains_key(key),
        index.contains_key(key) ==> leases_of(local, index)[membership] == index[key],
{
    assert forall|other: [u8; 64]|
        index.contains_key(other) && other@ == membership_bytes(local, membership) implies other
        == key by {
        lemma_same_bytes(other, key);
    }
}

proof fn lemma_lease_inserted(
    local: PeerId,
    index: Map<[u8; 64], Lease>,
    key: [u8; 64],
    membership: Membership,
    lease: Lease,
)
    requires
        key@ == membership_bytes(local, membership),
    ensures
        leases_of(local, index.insert(key, lease)) == leases_of(local, index).insert(
            membership,
            lease,
        ),
        memberships_only(local, index) ==> memberships_only(local, index.insert(key, lease)),
{
    let after = index.insert(key, lease);
    let left = leases_of(local, after);
    let right = leases_of(local, index).insert(membership, lease);
    lemma_leased(local, after, key, membership);
    assert forall|other: Membership| other != membership implies #[trigger] left.contains_key(other)
        == right.contains_key(other) && (left.contains_key(other) ==> left[other] == right[other]) by {
        if left.contains_key(other) {
            let k = choose|k: [u8; 64]| #[trigger]
                after.contains_key(k) && k@ == membership_bytes(local, other);
            lemma_leased(local, after, k, other);
            lemma_leased(local, index, k, other);
            if k == key {
                lemma_membership_injective(local, other, membership);
            }
        }
        if right.contains_key(other) {
            let k = choose|k: [u8; 64]| #[trigger]
                index.contains_key(k) && k@ == membership_bytes(local, other);
            lemma_leased(local, after, k, other);
            lemma_leased(local, index, k, other);
        }
    }
    assert(left =~= right);
}

proof fn lemma_lease_removed(
    local: PeerId,
    index: Map<[u8; 64], Lease>,
    key: [u8; 64],
    membership: Membership,
)
    requires
        key@ == membership_bytes(local, membership),
    ensures
        leases_of(local, index.remove(key)) == leases_of(local, index).remove(membership),
        memberships_only(local, index) ==> memberships_only(local, index.remove(key)),
{
    let after = index.remove(key);
    let left = leases_of(local, after);
    let right = leases_of(local, index).remove(membership);
    lemma_leased(local, after, key, membership);
    assert forall|other: Membership| other != membership implies #[trigger] left.contains_key(other)
        == right.contains_key(other) && (left.contains_key(other) ==> left[other] == right[other]) by {
        if left.contains_key(other) {
            let k = choose|k: [u8; 64]| #[trigger]
                after.contains_key(k) && k@ == membership_bytes(local, other);
            lemma_leased(local, after, k, other);
            lemma_leased(local, index, k, other);
        }
        if right.contains_key(other) {
            let k = choose|k: [u8; 64]| #[trigger]
                index.contains_key(k) && k@ == membership_bytes(local, other);
            lemma_leased(local, after, k, other);
            lemma_leased(local, index, k, other);
            if k == key {
                lemma_membership_injective(local, other, membership);
            }
        }
    }
    assert(left =~= right);
}

/// A deadline is indexed where its key is held.
proof fn lemma_indexed(index: Map<[u8; 72], ()>, key: [u8; 72], deadline: Deadline)
    requires
        is_deadline_key(key@, deadline),
    ensures
        deadlines_of(index).contains(deadline) == index.contains_key(key),
{
    assert forall|other: [u8; 72]| index.contains_key(other) && is_deadline_key(other@, deadline) implies other == key by {
        lemma_deadline_injective(other@, key@, deadline, deadline);
        lemma_same_bytes(other, key);
    }
}

proof fn lemma_deadline_inserted(index: Map<[u8; 72], ()>, key: [u8; 72], deadline: Deadline)
    requires
        is_deadline_key(key@, deadline),
    ensures
        deadlines_of(index.insert(key, ())) == deadlines_of(index).insert(deadline),
        deadlines_only(index) ==> deadlines_only(index.insert(key, ())),
{
    let after = index.insert(key, ());
    assert forall|other: Deadline| deadlines_of(after).contains(other) == deadlines_of(index).insert(
        deadline,
    ).contains(other) by {
        lemma_indexed(after, key, deadline);
        if deadlines_of(after).contains(other) {
            let k = choose|k: [u8; 72]| #[trigger]
                after.contains_key(k) && is_deadline_key(k@, other);
            if k == key {
                lemma_deadline_injective(k@, k@, other, deadline);
            } else {
                assert(index.contains_key(k));
            }
        }
        if deadlines_of(index).contains(other) {
            let k = choose|k: [u8; 72]| #[trigger]
                index.contains_key(k) && is_deadline_key(k@, other);
            assert(after.contains_key(k));
        }
    }
    assert(deadlines_of(after) =~= deadlines_of(index).insert(deadline));
}

proof fn lemma_deadline_removed(index: Map<[u8; 72], ()>, key: [u8; 72], deadline: Deadline)
    requires
        is_deadline_key(key@, deadline),
    ensures
        deadlines_of(index.remove(key)) == deadlines_of(index).remove(deadline),
        deadlines_only(index) ==> deadlines_only(index.remove(key)),
{
    let after = index.remove(key);
    assert forall|other: Deadline| deadlines_of(after).contains(other) == deadlines_of(index).remove(
        deadline,
    ).contains(other) by {
        lemma_indexed(after, key, deadline);
        if deadlines_of(after).contains(other) {
            let k = choose|k: [u8; 72]| #[trigger]
                after.contains_key(k) && is_deadline_key(k@, other);
            assert(index.contains_key(k));
        }
        if deadlines_of(index).contains(other) && other != deadline {
            let k = choose|k: [u8; 72]| #[trigger]
                index.contains_key(k) && is_deadline_key(k@, other);
            lemma_deadline_injective(k@, key@, other, deadline);
            assert(after.contains_key(k));
        }
    }
    assert(deadlines_of(after) =~= deadlines_of(index).remove(deadline));
}

/// As many memberships are leased as the index has keys.
proof fn lemma_lease_count(local: PeerId, index: Map<[u8; 64], Lease>)
    requires
        memberships_only(local, index),
        index.dom().finite(),
    ensures
        leases_of(local, index).dom().finite(),
        leases_of(local, index).dom().len() == index.dom().len(),
    decreases index.dom().len(),
{
    if index.dom() =~= Set::empty() {
        assert forall|m: Membership| !leases_of(local, index).contains_key(m) by {
            if leases_of(local, index).contains_key(m) {
                let k = choose|k: [u8; 64]| #[trigger]
                    index.contains_key(k) && k@ == membership_bytes(local, m);
                assert(index.dom().contains(k));
            }
        }
        assert(leases_of(local, index).dom() =~= Set::empty());
    } else {
        let key = index.dom().choose();
        assert(index.contains_key(key));
        let membership = choose|m: Membership| key@ == #[trigger] membership_bytes(local, m);
        let rest = index.remove(key);
        lemma_lease_removed(local, index, key, membership);
        lemma_leased(local, index, key, membership);
        lemma_lease_count(local, rest);
        assert(leases_of(local, index).dom() =~= leases_of(local, rest).dom().insert(membership));
    }
}

/// The directory as a value.
pub struct DirectoryState {
    pub local: PeerId,
    pub lifetime: nat,
    pub capacity: nat,
    pub leases: Map<Membership, Lease>,
    pub deadlines: Set<Deadline>,
}

/// Whether `deadline` is the earliest of `deadlines`.
pub open spec fn is_earliest(deadlines: Set<Deadline>, deadline: Deadline) -> bool {
    &&& deadlines.contains(deadline)
    &&& forall|other: Deadline| #[trigger]
        deadlines.contains(other) ==> deadline_order(deadline) <= deadline_order(other)
}

/// Whether `membership` is the most remote of `leases`.
pub open spec fn is_farthest(
    local: PeerId,
    leases: Map<Membership, Lease>,
    membership: Membership,
) -> bool {
    &&& leases.contains_key(membership)
    &&& forall|other: Membership| #[trigger]
        leases.contains_key(other) ==> remoteness(local, membership) >= remoteness(local, other)
}

impl DirectoryState {
    /// The index entry that a lease of `membership` has.
    pub open spec fn deadline(self, membership: Membership) -> Deadline {
        (self.leases[membership].expires_at.nanos, membership.0, membership.1)
    }

    /// The providers of `key`.
    pub open spec fn providers(self, key: ProviderKey) -> Set<PeerId> {
        Set::new(|provider: PeerId| self.leases.contains_key((key, provider)))
    }

    /// The rendezvous keys that have a provider.
    pub open spec fn keys(self) -> Set<ProviderKey> {
        Set::new(
            |key: ProviderKey|
                exists|provider: PeerId| #[trigger] self.leases.contains_key((key, provider)),
        )
    }

    /// Every lease has its deadline indexed, no key has more providers than it
    /// may have, and there are no more leases than there is room for.
    pub open spec fn well_formed(self) -> bool {
        &&& self.leases.dom().finite()
        &&& self.leases.dom().len() <= self.capacity
        &&& forall|membership: Membership| #[trigger]
            self.leases.contains_key(membership) ==> self.deadlines.contains(
                self.deadline(membership),
            )
        &&& forall|key: ProviderKey| #[trigger] self.key_in_bounds(key)
    }

    /// Whether `key` has no more providers than it may have.
    pub open spec fn key_in_bounds(self, key: ProviderKey) -> bool {
        self.providers(key).finite() && self.providers(key).len() <= MAX_PROVIDERS_PER_KEY
    }

    /// Without one membership and its deadline.
    pub open spec fn removed(self, membership: Membership) -> DirectoryState {
        if self.leases.contains_key(membership) {
            DirectoryState {
                leases: self.leases.remove(membership),
                deadlines: self.deadlines.remove(self.deadline(membership)),
                ..self
            }
        } else {
            self
        }
    }

    /// Without one index entry and the membership that expires with it. An
    /// entry that a renewal left behind takes no membership with it.
    pub open spec fn reclaimed(self, deadline: Deadline) -> DirectoryState {
        let membership = (deadline.1, deadline.2);
        DirectoryState {
            leases: if self.leases.contains_key(membership)
                && self.leases[membership].expires_at.nanos == deadline.0 {
                self.leases.remove(membership)
            } else {
                self.leases
            },
            deadlines: self.deadlines.remove(deadline),
            ..self
        }
    }

    /// After the earliest index entries, `budget` of them at most, were
    /// reclaimed as far as they are due at `now`.
    pub open spec fn pruned(self, now: Mono, budget: nat) -> DirectoryState
        decreases budget,
    {
        if budget > 0 && exists|deadline: Deadline|
            is_earliest(self.deadlines, deadline) && deadline.0 <= now.nanos {
            let deadline = choose|deadline: Deadline|
                is_earliest(self.deadlines, deadline) && deadline.0 <= now.nanos;
            self.reclaimed(deadline).pruned(now, (budget - 1) as nat)
        } else {
            self
        }
    }

    /// Without the memberships of `key` that have expired at `now`.
    pub open spec fn key_pruned(self, key: ProviderKey, now: Mono) -> DirectoryState {
        let expired = Set::new(
            |membership: Membership|
                self.leases.contains_key(membership) && membership.0 == key
                    && self.leases[membership].expires_at.nanos <= now.nanos,
        );
        DirectoryState {
            leases: self.leases.remove_keys(expired),
            deadlines: self.deadlines.difference(
                Set::new(
                    |deadline: Deadline|
                        expired.contains((deadline.1, deadline.2)) && deadline == self.deadline(
                            (deadline.1, deadline.2),
                        ),
                ),
            ),
            ..self
        }
    }

    /// With a lease that starts at `now`.
    pub open spec fn leased(
        self,
        membership: Membership,
        token: ProviderToken,
        now: Mono,
    ) -> DirectoryState {
        let expires_at = now.later(self.lifetime);
        DirectoryState {
            leases: self.leases.insert(membership, Lease { expires_at, token }),
            deadlines: self.deadlines.insert((expires_at.nanos, membership.0, membership.1)),
            ..self
        }
    }

    /// The most remote membership.
    pub open spec fn farthest(self) -> Option<Membership> {
        if exists|membership: Membership| is_farthest(self.local, self.leases, membership) {
            Some(
                choose|membership: Membership| is_farthest(self.local, self.leases, membership),
            )
        } else {
            None
        }
    }

    /// Whether a put is accepted, and the directory after it. A membership that
    /// is there is renewed. A new one needs room at its key, and room in the
    /// directory or a membership that is more remote and makes way.
    pub open spec fn put(
        self,
        key: ProviderKey,
        provider: PeerId,
        token: ProviderToken,
        now: Mono,
    ) -> (bool, DirectoryState) {
        let pruned = self.pruned(now, MAX_EXPIRED_PROVIDER_MEMBERSHIPS_PER_CALL as nat);
        let membership = (key, provider);
        if pruned.leases.contains_key(membership) {
            (true, pruned.removed(membership).leased(membership, token, now))
        } else {
            let room = pruned.key_pruned(key, now);
            if room.providers(key).len() >= MAX_PROVIDERS_PER_KEY {
                (false, room)
            } else if room.leases.dom().len() < room.capacity {
                (true, room.leased(membership, token, now))
            } else {
                match room.farthest() {
                    Some(farthest) if remoteness(self.local, membership) < remoteness(
                        self.local,
                        farthest,
                    ) => (true, room.removed(farthest).leased(membership, token, now)),
                    _ => (false, room),
                }
            }
        }
    }

    /// The live providers of `key`, each with its token.
    pub open spec fn live(self, key: ProviderKey, now: Mono) -> Map<PeerId, ProviderToken> {
        Map::new(
            |provider: PeerId|
                self.leases.contains_key((key, provider)) && self.leases[(
                    key,
                    provider,
                )].expires_at.nanos > now.nanos,
            |provider: PeerId| self.leases[(key, provider)].token,
        )
    }
}

/// The bounds of a directory: the lifetime of a lease in nanoseconds and the
/// most memberships that are kept.
#[derive(Clone, Copy, Debug, PartialEq, Eq)]
pub struct DirectoryLimits {
    pub lease: u64,
    pub memberships: usize,
}

/// Receiver-local exact soft directory. One index holds the memberships in the
/// order of responsibility; another orders their expiry.
#[derive(Debug)]
pub struct ProviderDirectory {
    pub local_id: PeerId,
    pub memberships: KeyMap<64, Lease>,
    pub deadlines: KeyMap<72, ()>,
    pub limits: DirectoryLimits,
}

impl View for ProviderDirectory {
    type V = DirectoryState;

    open spec fn view(&self) -> DirectoryState {
        DirectoryState {
            local: self.local_id,
            lifetime: self.limits.lease as nat,
            capacity: self.limits.memberships as nat,
            leases: leases_of(self.local_id, self.memberships@),
            deadlines: deadlines_of(self.deadlines@),
        }
    }
}

impl Default for ProviderDirectory {
    fn default() -> (directory: Self)
        ensures
            directory@.leases == Map::<Membership, Lease>::empty(),
            directory@.deadlines == Set::<Deadline>::empty(),
            directory@.lifetime == PROVIDER_LEASE_LIFETIME,
            directory@.capacity == MAX_PROVIDER_MEMBERSHIPS,
            forall|i: int| 0 <= i < 32 ==> directory@.local@[i] == 0,
            directory.well_formed(),
    {
        ProviderDirectory::new([0; 32])
    }
}

impl ProviderDirectory {
    /// Both indexes hold what they are for, and the directory is in bounds.
    pub open spec fn well_formed(&self) -> bool {
        &&& memberships_only(self.local_id, self.memberships@)
        &&& deadlines_only(self.deadlines@)
        &&& self@.well_formed()
    }

    /// An empty directory at `local_id`.
    pub fn new(local_id: PeerId) -> (directory: Self)
        ensures
            directory@ == (DirectoryState {
                local: local_id,
                lifetime: PROVIDER_LEASE_LIFETIME as nat,
                capacity: MAX_PROVIDER_MEMBERSHIPS as nat,
                leases: Map::empty(),
                deadlines: Set::empty(),
            }),
            directory.well_formed(),
    {
        Self::empty(local_id, PROVIDER_LEASE_LIFETIME, MAX_PROVIDER_MEMBERSHIPS)
    }

    /// An empty directory with bounds of its own.
    pub fn with_limits(lease: u64, memberships: usize) -> (directory: Self)
        ensures
            directory@.lifetime == lease,
            directory@.capacity == memberships,
            directory@.leases == Map::<Membership, Lease>::empty(),
            directory@.deadlines == Set::<Deadline>::empty(),
            forall|i: int| 0 <= i < 32 ==> directory@.local@[i] == 0,
            directory.well_formed(),
    {
        Self::empty([0; 32], lease, memberships)
    }

    fn empty(local_id: PeerId, lease: u64, memberships: usize) -> (directory: Self)
        ensures
            directory@ == (DirectoryState {
                local: local_id,
                lifetime: lease as nat,
                capacity: memberships as nat,
                leases: Map::empty(),
                deadlines: Set::empty(),
            }),
            directory.well_formed(),
    {
        let directory = ProviderDirectory {
            local_id,
            memberships: KeyMap::new(),
            deadlines: KeyMap::new(),
            limits: DirectoryLimits { lease, memberships },
        };
        proof {
            assert(directory@.leases =~= Map::<Membership, Lease>::empty());
            assert(directory@.deadlines =~= Set::<Deadline>::empty());
            assert forall|key: ProviderKey| #[trigger] directory@.key_in_bounds(key) by {
                assert(directory@.providers(key) =~= Set::<PeerId>::empty());
            }
        }
        directory
    }

    fn membership_prefix(&self, key: &ProviderKey) -> (prefix: [u8; 32])
        ensures
            prefix@ == complement(xor(key@, self.local_id@)),
    {
        flip(&difference(key, &self.local_id))
    }

    fn membership_key(&self, locator: &ProviderKey, provider: &PeerId) -> (key: [u8; 64])
        ensures
            key@ == membership_bytes(self.local_id, (*locator, *provider)),
    {
        join(&self.membership_prefix(locator), &flip(provider))
    }

    fn decode_membership(&self, key: &[u8; 64]) -> (membership: Membership)
        ensures
            key@ == membership_bytes(self.local_id, membership),
    {
        let (prefix, suffix) = split(key);
        let distance = flip(&prefix);
        let locator = difference(&distance, &self.local_id);
        let provider = flip(&suffix);
        proof {
            lemma_complement_twice(prefix@);
            lemma_complement_twice(suffix@);
            lemma_xor_twice(distance@, self.local_id@);
        }
        (locator, provider)
    }

    /// The index entry of a deadline.
    pub fn deadline_key(deadline: Mono, locator: ProviderKey, provider: PeerId) -> (key: [u8; 72])
        ensures
            is_deadline_key(key@, (deadline.nanos, locator, provider)),
    {
        let time: [u8; 8] = write_be::<8>(deadline.nanos);
        proof {
            lemma_eight_bytes();
        }
        let mut key: [u8; 72] = [0; 72];
        let mut i: usize = 0;
        while i < 8
            invariant
                i <= 8,
                forall|j: int| 0 <= j < i ==> #[trigger] key@[j] == time@[j],
            decreases 8 - i,
        {
            key[i] = time[i];
            i = i + 1;
        }
        let mut j: usize = 0;
        while j < 32
            invariant
                j <= 32,
                forall|k: int| 0 <= k < 8 ==> #[trigger] key@[k] == time@[k],
                forall|k: int| 0 <= k < j ==> #[trigger] key@[8 + k] == locator@[k],
                forall|k: int| 0 <= k < j ==> #[trigger] key@[40 + k] == provider@[k],
            decreases 32 - j,
        {
            key[8 + j] = locator[j];
            key[40 + j] = provider[j];
            j = j + 1;
        }
        proof {
            assert(key@.subrange(0, 8) =~= time@);
            assert forall|k: int| 0 <= k < 32 implies #[trigger] key@.subrange(8, 40)[k]
                == locator@[k] by {
                assert(key@[8 + k] == locator@[k]);
            }
            assert forall|k: int| 0 <= k < 32 implies #[trigger] key@.subrange(40, 72)[k]
                == provider@[k] by {
                assert(key@[40 + k] == provider@[k]);
            }
            assert(key@.subrange(8, 40) =~= locator@);
            assert(key@.subrange(40, 72) =~= provider@);
        }
        key
    }

    fn decode_deadline(key: &[u8; 72]) -> (deadline: Deadline)
        ensures
            is_deadline_key(key@, deadline),
    {
        let mut time: [u8; 8] = [0; 8];
        let mut i: usize = 0;
        while i < 8
            invariant
                i <= 8,
                forall|j: int| 0 <= j < i ==> #[trigger] time@[j] == key@[j],
            decreases 8 - i,
        {
            time[i] = key[i];
            i = i + 1;
        }
        let mut locator: [u8; 32] = [0; 32];
        let mut provider: [u8; 32] = [0; 32];
        let mut j: usize = 0;
        while j < 32
            invariant
                j <= 32,
                forall|k: int| 0 <= k < j ==> #[trigger] locator@[k] == key@[8 + k],
                forall|k: int| 0 <= k < j ==> #[trigger] provider@[k] == key@[40 + k],
            decreases 32 - j,
        {
            locator[j] = key[8 + j];
            provider[j] = key[40 + j];
            j = j + 1;
        }
        assert(key@.subrange(0, 8) =~= time@);
        assert(key@.subrange(8, 40) =~= locator@);
        assert(key@.subrange(40, 72) =~= provider@);
        (read_be(&time), locator, provider)
    }

    fn remove_membership(&mut self, key: &ProviderKey, provider: &PeerId)
        requires
            memberships_only(old(self).local_id, old(self).memberships@),
            deadlines_only(old(self).deadlines@),
        ensures
            final(self)@ == old(self)@.removed((*key, *provider)),
            memberships_only(final(self).local_id, final(self).memberships@),
            deadlines_only(final(self).deadlines@),
    {
        let membership = self.membership_key(key, provider);
        proof {
            lemma_leased(self.local_id, self.memberships@, membership, (*key, *provider));
            lemma_lease_removed(self.local_id, self.memberships@, membership, (*key, *provider));
        }
        if let Some(lease) = self.memberships.get(&membership) {
            let deadline = Self::deadline_key(lease.expires_at, *key, *provider);
            proof {
                lemma_deadline_removed(
                    self.deadlines@,
                    deadline,
                    (lease.expires_at.nanos, *key, *provider),
                );
            }
            let _ = self.deadlines.remove(&deadline);
            let _ = self.memberships.remove(&membership);
        }
    }

    /// Reclaim expired memberships, in the order of their expiry and up to the
    /// budget of one call. Index entries that a renewal left behind are charged
    /// against the same budget.
    pub fn prune_expired(&mut self, now: Mono)
        requires
            old(self).well_formed(),
        ensures
            final(self)@ == old(self)@.pruned(
                now,
                MAX_EXPIRED_PROVIDER_MEMBERSHIPS_PER_CALL as nat,
            ),
            final(self).well_formed(),
    {
        let mut spent: usize = 0;
        while spent < MAX_EXPIRED_PROVIDER_MEMBERSHIPS_PER_CALL
            invariant
                spent <= MAX_EXPIRED_PROVIDER_MEMBERSHIPS_PER_CALL,
                self.well_formed(),
                self@.pruned(now, (MAX_EXPIRED_PROVIDER_MEMBERSHIPS_PER_CALL - spent) as nat)
                    == old(self)@.pruned(now, MAX_EXPIRED_PROVIDER_MEMBERSHIPS_PER_CALL as nat),
            decreases MAX_EXPIRED_PROVIDER_MEMBERSHIPS_PER_CALL - spent,
        {
            let expiry = match self.deadlines.first() {
                Some(expiry) => expiry,
                None => {
                    proof {
                        assert forall|deadline: Deadline| !is_earliest(
                            self@.deadlines,
                            deadline,
                        ) by {}
                    }
                    return ;
                },
            };
            let deadline = Self::decode_deadline(&expiry);
            proof {
                lemma_first_is_earliest(self.deadlines@, expiry, deadline);
            }
            if deadline.0 > now.nanos {
                proof {
                    assert forall|other: Deadline| is_earliest(self@.deadlines, other) implies other
                        == deadline by {
                        lemma_earliest_unique(self.deadlines@, other, deadline);
                    }
                }
                return ;
            }
            let ghost before = self@;
            proof {
                let chosen = choose|other: Deadline|
                    is_earliest(before.deadlines, other) && other.0 <= now.nanos;
                assert(is_earliest(before.deadlines, deadline) && deadline.0 <= now.nanos);
                lemma_earliest_unique(self.deadlines@, chosen, deadline);
                lemma_deadline_removed(self.deadlines@, expiry, deadline);
            }
            let _ = self.deadlines.remove(&expiry);
            let membership = self.membership_key(&deadline.1, &deadline.2);
            proof {
                lemma_leased(
                    self.local_id,
                    self.memberships@,
                    membership,
                    (deadline.1, deadline.2),
                );
                lemma_lease_removed(
                    self.local_id,
                    self.memberships@,
                    membership,
                    (deadline.1, deadline.2),
                );
            }
            let expires = match self.memberships.get(&membership) {
                Some(lease) => lease.expires_at.nanos == deadline.0,
                None => false,
            };
            if expires {
                let _ = self.memberships.remove(&membership);
            }
            proof {
                assert(self@ == before.reclaimed(deadline));
                lemma_reclaimed(before, deadline);
            }
            spent = spent + 1;
        }
    }

    /// The providers retained for one exact rendezvous key.
    fn providers_of(&self, key: &ProviderKey) -> (providers: Vec<PeerId>)
        ensures
            providers@.no_duplicates(),
            providers@.to_set() == self@.providers(*key),
    {
        let prefix = self.membership_prefix(key);
        let suffixes = second_segments(&self.memberships, &prefix);
        let mut providers: Vec<PeerId> = Vec::new();
        let mut i: usize = 0;
        while i < suffixes.len()
            invariant
                i <= suffixes@.len(),
                providers@.len() == i,
                forall|j: int| 0 <= j < i ==> #[trigger] providers@[j]@ == complement(suffixes@[j]@),
            decreases suffixes@.len() - i,
        {
            providers.push(flip(&suffixes[i]));
            i = i + 1;
        }
        proof {
            assert forall|i: int, j: int|
                0 <= i < providers@.len() && 0 <= j < providers@.len() && i != j implies providers@[i]
                != providers@[j] by {
                if providers@[i] == providers@[j] {
                    assert(providers@[i]@ == complement(suffixes@[i]@));
                    assert(providers@[j]@ == complement(suffixes@[j]@));
                    lemma_complement_twice(suffixes@[i]@);
                    lemma_complement_twice(suffixes@[j]@);
                    lemma_same_bytes(suffixes@[i], suffixes@[j]);
                    if i < j {
                        assert(rank(suffixes@[i]) < rank(suffixes@[j]));
                    } else {
                        assert(rank(suffixes@[j]) < rank(suffixes@[i]));
                    }
                }
            }
            assert forall|provider: PeerId| providers@.to_set().contains(provider)
                == self@.providers(*key).contains(provider) by {
                if providers@.contains(provider) {
                    let i = choose|i: int| 0 <= i < providers@.len() && providers@[i] == provider;
                    assert(providers@[i]@ == complement(suffixes@[i]@));
                    assert(suffixes@.contains(suffixes@[i]));
                    let entry = choose|entry: [u8; 64]| #[trigger]
                        self.memberships@.contains_key(entry) && is_joined(
                            entry,
                            prefix,
                            suffixes@[i],
                        );
                    lemma_complement_twice(suffixes@[i]@);
                    lemma_leased(self.local_id, self.memberships@, entry, (*key, provider));
                }
                if self@.providers(*key).contains(provider) {
                    let entry = choose|entry: [u8; 64]| #[trigger]
                        self.memberships@.contains_key(entry) && entry@ == membership_bytes(
                            self.local_id,
                            (*key, provider),
                        );
                    assert(entry@.take(32) =~= prefix@);
                    assert(entry@.skip(32) =~= complement(provider@));
                    let i = choose|i: int|
                        0 <= i < suffixes@.len() && #[trigger] suffixes@[i]@ == entry@.skip(32);
                    assert(providers@[i]@ == complement(suffixes@[i]@));
                    lemma_complement_twice(provider@);
                    lemma_same_bytes(providers@[i], provider);
                    assert(providers@[i] == provider);
                }
            }
            assert(providers@.to_set() =~= self@.providers(*key));
        }
        providers
    }

    /// Reclaim the stale memberships that can block this exact key. Global
    /// expiry cleanup remains bounded too, but unrelated older entries must
    /// never make a live insertion spuriously observe a saturated key.
    fn prune_expired_key(&mut self, key: &ProviderKey, now: Mono)
        requires
            old(self).well_formed(),
        ensures
            final(self)@ == old(self)@.key_pruned(*key, now),
            final(self).well_formed(),
    {
        let providers = self.providers_of(key);
        let ghost before = self@;
        let mut i: usize = 0;
        proof {
            assert(providers@.take(0).to_set() =~= Set::<PeerId>::empty());
            let none = expired_among(before, *key, now, providers@.take(0).to_set());
            assert(before.leases.remove_keys(none) =~= before.leases);
            assert(self@.leases =~= pruned_among(
                before,
                *key,
                now,
                providers@.take(0).to_set(),
            ).leases);
            assert(self@.deadlines =~= pruned_among(
                before,
                *key,
                now,
                providers@.take(0).to_set(),
            ).deadlines);
        }
        while i < providers.len()
            invariant
                i <= providers@.len(),
                providers@.no_duplicates(),
                providers@.to_set() == before.providers(*key),
                before == old(self)@,
                self.well_formed(),
                self@ == pruned_among(before, *key, now, providers@.take(i as int).to_set()),
            decreases providers@.len() - i,
        {
            let provider = providers[i];
            let ghost seen = providers@.take(i as int).to_set();
            let membership = self.membership_key(key, &provider);
            proof {
                lemma_leased(self.local_id, self.memberships@, membership, (*key, provider));
                lemma_take_to_set(providers@, i as int);
                assert(!seen.contains(provider)) by {
                    if providers@.take(i as int).contains(provider) {
                        let j = choose|j: int|
                            0 <= j < i && providers@.take(i as int)[j] == provider;
                        assert(providers@[j] == providers@[i as int]);
                    }
                }
                assert(providers@.to_set().contains(provider)) by {
                    assert(providers@.contains(provider));
                }
                assert(before.providers(*key).contains(provider));
            }
            let expired = match self.memberships.get(&membership) {
                Some(lease) => lease.expires_at.nanos <= now.nanos,
                None => false,
            };
            if expired {
                proof {
                    lemma_removed(self@, (*key, provider));
                }
                self.remove_membership(key, &provider);
            }
            proof {
                let wanted = pruned_among(before, *key, now, seen.insert(provider));
                assert(self@.leases =~= wanted.leases);
                assert(self@.deadlines =~= wanted.deadlines);
                assert(self@ == wanted);
            }
            i = i + 1;
        }
        proof {
            assert(providers@.take(i as int) =~= providers@);
            let wanted = before.key_pruned(*key, now);
            assert(self@.leases =~= wanted.leases) by {
                assert forall|m: Membership| self@.leases.contains_key(m)
                    == wanted.leases.contains_key(m) by {
                    if before.leases.contains_key(m) && m.0 == *key {
                        assert(before.providers(*key).contains(m.1));
                    }
                }
            }
            assert(self@.deadlines =~= wanted.deadlines) by {
                assert forall|d: Deadline| self@.deadlines.contains(d) == wanted.deadlines.contains(
                    d,
                ) by {
                    let m = (d.1, d.2);
                    if before.leases.contains_key(m) && m.0 == *key {
                        assert(before.providers(*key).contains(m.1));
                    }
                }
            }
        }
    }

    /// How many memberships and how many rendezvous keys are retained; expired
    /// ones may still await reclamation.
    pub fn retained_counts(&self) -> (counts: (usize, usize))
        requires
            self.well_formed(),
        ensures
            counts.0 == self@.leases.dom().len(),
            counts.1 == self@.keys().len(),
            self@.keys().finite(),
    {
        let count: usize = self.memberships.len();
        proof {
            lemma_lease_count(self.local_id, self.memberships@);
        }
        let entries = self.memberships.entries();
        let ghost list = entries@;
        let mut keys: KeyMap<32, ()> = KeyMap::new();
        let mut i: usize = 0;
        proof {
            lemma_contents(list);
        }
        while i < entries.len()
            invariant
                i <= list.len(),
                list == entries@,
                forall|key: ProviderKey| #[trigger]
                    keys@.contains_key(key) <==> exists|j: int|
                        0 <= j < i && #[trigger] holds_key(self.local_id, list[j].0@, key),
            decreases list.len() - i,
        {
            let ghost before = keys@;
            let membership = self.decode_membership(&entries[i].0);
            keys.insert(membership.0, ());
            proof {
                assert(list[i as int].0@ == membership_bytes(
                    self.local_id,
                    (membership.0, membership.1),
                ));
                assert forall|key: ProviderKey| #[trigger] keys@.contains_key(key) <==> exists|
                    j: int,
                |
                    0 <= j < i + 1 && #[trigger] holds_key(self.local_id, list[j].0@, key) by {
                    assert(holds_key(self.local_id, list[i as int].0@, membership.0));
                    if keys@.contains_key(key) && key != membership.0 {
                        assert(before.contains_key(key));
                        let j = choose|j: int|
                            0 <= j < i && #[trigger] holds_key(self.local_id, list[j].0@, key);
                        assert(holds_key(self.local_id, list[j].0@, key));
                    }
                    if exists|j: int|
                        0 <= j < i + 1 && #[trigger] holds_key(self.local_id, list[j].0@, key) {
                        let j = choose|j: int|
                            0 <= j < i + 1 && #[trigger] holds_key(self.local_id, list[j].0@, key);
                        if j == i {
                            let p = choose|p: PeerId|
                                list[j].0@ == #[trigger] membership_bytes(self.local_id, (key, p));
                            lemma_membership_injective(self.local_id, (key, p), membership);
                        } else {
                            assert(before.contains_key(key));
                        }
                    }
                }
            }
            i = i + 1;
        }
        proof {
            assert forall|key: ProviderKey| keys@.contains_key(key) == self@.keys().contains(key) by {
                if keys@.contains_key(key) {
                    let j = choose|j: int|
                        0 <= j < i && #[trigger] holds_key(self.local_id, list[j].0@, key);
                    let p = choose|p: PeerId|
                        list[j].0@ == #[trigger] membership_bytes(self.local_id, (key, p));
                    assert(self.memberships@.contains_key(list[j].0));
                    lemma_leased(self.local_id, self.memberships@, list[j].0, (key, p));
                    assert(self@.leases.contains_key((key, p)));
                }
                if self@.keys().contains(key) {
                    let provider = choose|provider: PeerId| #[trigger]
                        self@.leases.contains_key((key, provider));
                    let entry = choose|entry: [u8; 64]| #[trigger]
                        self.memberships@.contains_key(entry) && entry@ == membership_bytes(
                            self.local_id,
                            (key, provider),
                        );
                    let j = choose|j: int| 0 <= j < list.len() && #[trigger] list[j].0 == entry;
                    assert(list[j].0@ == membership_bytes(self.local_id, (key, provider)));
                    assert(holds_key(self.local_id, list[j].0@, key));
                }
            }
            assert(keys@.dom() =~= self@.keys());
        }
        (count, keys.len())
    }

    /// Every live provider retained for one exact rendezvous key, with its
    /// token, in the order of the providers.
    pub fn get(&mut self, key: ProviderKey, now: Mono) -> (found: Vec<(PeerId, ProviderToken)>)
        requires
            old(self).well_formed(),
        ensures
            final(self)@ == old(self)@.pruned(
                now,
                MAX_EXPIRED_PROVIDER_MEMBERSHIPS_PER_CALL as nat,
            ),
            ascending(found@),
            contents(found@) == final(self)@.live(key, now),
            final(self).well_formed(),
    {
        self.prune_expired(now);
        let providers = self.providers_of(&key);
        let mut found: KeyMap<32, ProviderToken> = KeyMap::new();
        let mut i: usize = 0;
        assert(providers@.take(0).to_set() =~= Set::<PeerId>::empty());
        assert(found@ =~= self@.live(key, now).restrict(providers@.take(0).to_set()));
        while i < providers.len()
            invariant
                i <= providers@.len(),
                self.well_formed(),
                providers@.to_set() == self@.providers(key),
                found@ == self@.live(key, now).restrict(providers@.take(i as int).to_set()),
            decreases providers@.len() - i,
        {
            let provider = providers[i];
            let ghost seen = providers@.take(i as int).to_set();
            let membership = self.membership_key(&key, &provider);
            proof {
                lemma_leased(self.local_id, self.memberships@, membership, (key, provider));
                lemma_take_to_set(providers@, i as int);
            }
            if let Some(lease) = self.memberships.get(&membership) {
                if lease.expires_at.nanos > now.nanos {
                    found.insert(provider, lease.token);
                }
            }
            assert(found@ =~= self@.live(key, now).restrict(seen.insert(provider)));
            i = i + 1;
        }
        proof {
            assert(providers@.take(i as int) =~= providers@);
            assert(self@.live(key, now).restrict(self@.providers(key)) =~= self@.live(key, now));
        }
        found.into_entries()
    }

    /// Install or renew one exact membership. Capacity pressure never prevents
    /// an already-admitted live membership from renewing.
    pub fn put(
        &mut self,
        key: ProviderKey,
        provider: PeerId,
        token: ProviderToken,
        now: Mono,
    ) -> (accepted: bool)
        requires
            old(self).well_formed(),
        ensures
            accepted == old(self)@.put(key, provider, token, now).0,
            final(self)@ == old(self)@.put(key, provider, token, now).1,
            final(self).well_formed(),
    {
        proof {
            lemma_pruned_settings(self@, now, MAX_EXPIRED_PROVIDER_MEMBERSHIPS_PER_CALL as nat);
        }
        self.prune_expired(now);
        let membership = self.membership_key(&key, &provider);
        proof {
            lemma_leased(self.local_id, self.memberships@, membership, (key, provider));
        }
        if self.memberships.contains_key(&membership) {
            proof {
                lemma_removed(self@, (key, provider));
                lemma_renewed(self@, (key, provider), token, now);
            }
            self.remove_membership(&key, &provider);
        } else {
            self.prune_expired_key(&key, now);
            let providers = self.providers_of(&key);
            let count: usize = self.memberships.len();
            proof {
                providers@.unique_seq_to_set();
                lemma_lease_count(self.local_id, self.memberships@);
            }
            if providers.len() >= MAX_PROVIDERS_PER_KEY {
                return false;
            }
            if count >= self.limits.memberships {
                let entry = match self.memberships.first() {
                    Some(entry) => entry,
                    None => {
                        proof {
                            assert forall|m: Membership| !is_farthest(
                                self.local_id,
                                self@.leases,
                                m,
                            ) by {}
                        }
                        return false;
                    },
                };
                let farthest = self.decode_membership(&entry);
                proof {
                    lemma_first_is_farthest(self.local_id, self.memberships@, entry, farthest);
                    let chosen = choose|m: Membership| is_farthest(self.local_id, self@.leases, m);
                    lemma_farthest_unique(self.local_id, self@.leases, chosen, farthest);
                    lemma_membership_order(self.local_id, (key, provider));
                    lemma_membership_order(self.local_id, farthest);
                }
                match position(&membership, &entry) {
                    Position::After => {},
                    _ => {
                        return false;
                    },
                }
                proof {
                    lemma_removed(self@, farthest);
                    lemma_leased(self.local_id, self.memberships@, entry, farthest);
                    lemma_fewer_leases(self@, self@.removed(farthest));
                    assert(self@.removed(farthest).providers(key).subset_of(self@.providers(key)));
                    vstd::set_lib::lemma_len_subset(
                        self@.removed(farthest).providers(key),
                        self@.providers(key),
                    );
                }
                self.remove_membership(&farthest.0, &farthest.1);
            }
            proof {
                lemma_leased_in_bounds(self@, (key, provider), token, now);
            }
        }
        let expires_at = now.plus(self.limits.lease);
        let deadline = Self::deadline_key(expires_at, key, provider);
        proof {
            lemma_lease_inserted(
                self.local_id,
                self.memberships@,
                membership,
                (key, provider),
                Lease { expires_at, token },
            );
            lemma_deadline_inserted(
                self.deadlines@,
                deadline,
                (expires_at.nanos, key, provider),
            );
        }
        self.memberships.insert(membership, Lease { expires_at, token });
        self.deadlines.insert(deadline, ());
        true
    }
}

/// Reclamation leaves the place and the bounds of the directory alone.
proof fn lemma_pruned_settings(state: DirectoryState, now: Mono, budget: nat)
    ensures
        state.pruned(now, budget).local == state.local,
        state.pruned(now, budget).lifetime == state.lifetime,
        state.pruned(now, budget).capacity == state.capacity,
    decreases budget,
{
    if budget > 0 && exists|deadline: Deadline|
        is_earliest(state.deadlines, deadline) && deadline.0 <= now.nanos {
        let deadline = choose|deadline: Deadline|
            is_earliest(state.deadlines, deadline) && deadline.0 <= now.nanos;
        lemma_pruned_settings(state.reclaimed(deadline), now, (budget - 1) as nat);
    }
}

/// Reading one provider more adds it.
proof fn lemma_take_to_set(providers: Seq<PeerId>, count: int)
    requires
        0 <= count < providers.len(),
    ensures
        providers.take(count + 1).to_set() == providers.take(count).to_set().insert(
            providers[count],
        ),
{
    let more = providers.take(count + 1);
    let less = providers.take(count);
    assert(more =~= less.push(providers[count]));
    assert forall|p: PeerId| more.to_set().contains(p) == less.to_set().insert(
        providers[count],
    ).contains(p) by {
        if more.contains(p) {
            let j = choose|j: int| 0 <= j < more.len() && more[j] == p;
            if j < count {
                assert(less[j] == p);
            }
        }
        if less.contains(p) {
            let j = choose|j: int| 0 <= j < less.len() && less[j] == p;
            assert(more[j] == p);
        }
        assert(more[count] == providers[count]);
    }
    assert(more.to_set() =~= less.to_set().insert(providers[count]));
}

/// Whether index key `bytes` is that of a membership of `key`.
spec fn holds_key(local: PeerId, bytes: Seq<u8>, key: ProviderKey) -> bool {
    exists|provider: PeerId| bytes == #[trigger] membership_bytes(local, (key, provider))
}

/// The memberships of `key` among `providers` that have expired.
spec fn expired_among(
    state: DirectoryState,
    key: ProviderKey,
    now: Mono,
    providers: Set<PeerId>,
) -> Set<Membership> {
    Set::new(
        |membership: Membership|
            state.leases.contains_key(membership) && membership.0 == key
                && state.leases[membership].expires_at.nanos <= now.nanos && providers.contains(
                membership.1,
            ),
    )
}

spec fn pruned_among(
    state: DirectoryState,
    key: ProviderKey,
    now: Mono,
    providers: Set<PeerId>,
) -> DirectoryState {
    let expired = expired_among(state, key, now, providers);
    DirectoryState {
        leases: state.leases.remove_keys(expired),
        deadlines: state.deadlines.difference(
            Set::new(
                |deadline: Deadline|
                    expired.contains((deadline.1, deadline.2)) && deadline == state.deadline(
                        (deadline.1, deadline.2),
                    ),
            ),
        ),
        ..state
    }
}

proof fn lemma_first_is_farthest(
    local: PeerId,
    index: Map<[u8; 64], Lease>,
    key: [u8; 64],
    membership: Membership,
)
    requires
        is_least(index, key),
        key@ == membership_bytes(local, membership),
    ensures
        is_farthest(local, leases_of(local, index), membership),
{
    lemma_leased(local, index, key, membership);
    lemma_membership_order(local, membership);
    assert forall|other: Membership| #[trigger] leases_of(local, index).contains_key(other) implies remoteness(
        local,
        membership,
    ) >= remoteness(local, other) by {
        let k = choose|k: [u8; 64]| #[trigger]
            index.contains_key(k) && k@ == membership_bytes(local, other);
        lemma_membership_order(local, other);
    }
}

proof fn lemma_farthest_unique(
    local: PeerId,
    leases: Map<Membership, Lease>,
    a: Membership,
    b: Membership,
)
    requires
        is_farthest(local, leases, a),
        is_farthest(local, leases, b),
    ensures
        a == b,
{
    lemma_membership_order(local, a);
    lemma_membership_order(local, b);
    lemma_big_endian_injective(membership_bytes(local, a), membership_bytes(local, b));
    lemma_membership_injective(local, a, b);
}

/// A new lease is in bounds where there is room for it.
proof fn lemma_leased_in_bounds(
    before: DirectoryState,
    membership: Membership,
    token: ProviderToken,
    now: Mono,
)
    requires
        before.well_formed(),
        before.leases.dom().len() < before.capacity,
        before.providers(membership.0).len() < MAX_PROVIDERS_PER_KEY,
    ensures
        before.leased(membership, token, now).well_formed(),
{
    let after = before.leased(membership, token, now);
    assert forall|other: Membership| #[trigger]
        after.leases.contains_key(other) implies after.deadlines.contains(
        after.deadline(other),
    ) by {
        if other != membership {
            assert(before.leases.contains_key(other));
            assert(before.deadlines.contains(before.deadline(other)));
        }
    }
    assert forall|key: ProviderKey| #[trigger] after.key_in_bounds(key) by {
        assert(before.key_in_bounds(key));
        if key == membership.0 {
            assert(after.providers(key) =~= before.providers(key).insert(membership.1));
        } else {
            assert(after.providers(key) =~= before.providers(key));
        }
    }
}

/// Renewing a lease keeps the directory in bounds.
proof fn lemma_renewed(
    before: DirectoryState,
    membership: Membership,
    token: ProviderToken,
    now: Mono,
)
    requires
        before.well_formed(),
        before.leases.contains_key(membership),
    ensures
        before.removed(membership).leased(membership, token, now).well_formed(),
{
    let without = before.removed(membership);
    lemma_removed(before, membership);
    assert(before.key_in_bounds(membership.0));
    assert(without.providers(membership.0) =~= before.providers(membership.0).remove(
        membership.1,
    ));
    assert(before.providers(membership.0).contains(membership.1));
    assert(without.leases.dom() =~= before.leases.dom().remove(membership));
    lemma_leased_in_bounds(without, membership, token, now);
}

proof fn lemma_first_is_earliest(index: Map<[u8; 72], ()>, key: [u8; 72], deadline: Deadline)
    requires
        is_least(index, key),
        is_deadline_key(key@, deadline),
    ensures
        is_earliest(deadlines_of(index), deadline),
{
    lemma_deadline_order(key@, deadline);
    assert forall|other: Deadline| #[trigger] deadlines_of(index).contains(other) implies deadline_order(
        deadline,
    ) <= deadline_order(other) by {
        let k = choose|k: [u8; 72]| #[trigger]
            index.contains_key(k) && is_deadline_key(k@, other);
        lemma_deadline_order(k@, other);
    }
}

proof fn lemma_earliest_unique(index: Map<[u8; 72], ()>, a: Deadline, b: Deadline)
    requires
        is_earliest(deadlines_of(index), a),
        is_earliest(deadlines_of(index), b),
    ensures
        a == b,
{
    let x = choose|k: [u8; 72]| #[trigger] index.contains_key(k) && is_deadline_key(k@, a);
    let y = choose|k: [u8; 72]| #[trigger] index.contains_key(k) && is_deadline_key(k@, b);
    lemma_deadline_order(x@, a);
    lemma_deadline_order(y@, b);
    lemma_big_endian_injective(x@, y@);
    lemma_deadline_injective(x@, y@, a, b);
}

/// Fewer leases are in bounds where more are.
proof fn lemma_fewer_leases(before: DirectoryState, after: DirectoryState)
    requires
        before.well_formed(),
        after.leases.dom().subset_of(before.leases.dom()),
        after.capacity == before.capacity,
    ensures
        after.leases.dom().finite(),
        after.leases.dom().len() <= before.leases.dom().len(),
        forall|key: ProviderKey| #[trigger] after.key_in_bounds(key),
{
    vstd::set_lib::lemma_set_subset_finite(before.leases.dom(), after.leases.dom());
    vstd::set_lib::lemma_len_subset(after.leases.dom(), before.leases.dom());
    assert forall|key: ProviderKey| #[trigger] after.key_in_bounds(key) by {
        assert(before.key_in_bounds(key));
        assert forall|provider: PeerId| after.providers(key).contains(
            provider,
        ) implies before.providers(key).contains(provider) by {
            assert(after.leases.dom().contains((key, provider)));
        }
        vstd::set_lib::lemma_set_subset_finite(before.providers(key), after.providers(key));
        vstd::set_lib::lemma_len_subset(after.providers(key), before.providers(key));
    }
}

proof fn lemma_reclaimed(before: DirectoryState, deadline: Deadline)
    requires
        before.well_formed(),
    ensures
        before.reclaimed(deadline).well_formed(),
{
    let after = before.reclaimed(deadline);
    lemma_fewer_leases(before, after);
    assert forall|membership: Membership| #[trigger]
        after.leases.contains_key(membership) implies after.deadlines.contains(
        after.deadline(membership),
    ) by {
        assert(before.leases.contains_key(membership));
        assert(before.deadlines.contains(before.deadline(membership)));
    }
}

proof fn lemma_removed(before: DirectoryState, membership: Membership)
    requires
        before.well_formed(),
    ensures
        before.removed(membership).well_formed(),
{
    let after = before.removed(membership);
    lemma_fewer_leases(before, after);
    assert forall|other: Membership| #[trigger]
        after.leases.contains_key(other) implies after.deadlines.contains(
        after.deadline(other),
    ) by {
        assert(before.leases.contains_key(other));
        assert(before.deadlines.contains(before.deadline(other)));
    }
}

/// Reclamation takes no membership that has not expired, and changes none.
pub proof fn law_reclamation_takes_expired_leases_only(
    state: DirectoryState,
    now: Mono,
    budget: nat,
)
    ensures
        forall|membership: Membership| #[trigger]
            state.pruned(now, budget).leases.contains_key(membership)
                ==> state.leases.contains_key(membership) && state.pruned(
                now,
                budget,
            ).leases[membership] == state.leases[membership],
        forall|membership: Membership| #[trigger]
            state.leases.contains_key(membership) && state.leases[membership].expires_at.nanos
                > now.nanos ==> state.pruned(now, budget).leases.contains_key(membership),
    decreases budget,
{
    if budget > 0 && exists|deadline: Deadline|
        is_earliest(state.deadlines, deadline) && deadline.0 <= now.nanos {
        let deadline = choose|deadline: Deadline|
            is_earliest(state.deadlines, deadline) && deadline.0 <= now.nanos;
        let next = state.reclaimed(deadline);
        law_reclamation_takes_expired_leases_only(next, now, (budget - 1) as nat);
        assert forall|membership: Membership| #[trigger]
            state.pruned(now, budget).leases.contains_key(
                membership,
            ) implies state.leases.contains_key(membership) && state.pruned(
            now,
            budget,
        ).leases[membership] == state.leases[membership] by {
            assert(next.pruned(now, (budget - 1) as nat).leases.contains_key(membership));
            assert(next.leases.contains_key(membership));
        }
        assert forall|membership: Membership| #[trigger]
            state.leases.contains_key(membership) && state.leases[membership].expires_at.nanos
                > now.nanos implies state.pruned(now, budget).leases.contains_key(membership) by {
            assert(next.leases.contains_key(membership));
        }
    }
}

/// What a lookup answers: exactly the providers whose lease has not expired.
pub proof fn law_lookup_is_exact(state: DirectoryState, key: ProviderKey, now: Mono, budget: nat)
    ensures
        state.pruned(now, budget).live(key, now) == state.live(key, now),
{
    law_reclamation_takes_expired_leases_only(state, now, budget);
    let pruned = state.pruned(now, budget);
    assert forall|provider: PeerId| pruned.live(key, now).contains_key(provider) == state.live(
        key,
        now,
    ).contains_key(provider) by {
        assert(pruned.leases.contains_key((key, provider)) || !pruned.leases.contains_key(
            (key, provider),
        ));
        assert(state.leases.contains_key((key, provider)) || !state.leases.contains_key(
            (key, provider),
        ));
    }
    assert(pruned.live(key, now) =~= state.live(key, now));
}

/// Capacity pressure never prevents a live membership from renewing, and its
/// lease is then a full lifetime long again.
pub proof fn law_live_membership_renews(
    state: DirectoryState,
    key: ProviderKey,
    provider: PeerId,
    token: ProviderToken,
    now: Mono,
)
    requires
        state.live(key, now).contains_key(provider),
    ensures
        state.put(key, provider, token, now).0,
        state.put(key, provider, token, now).1.leases[(key, provider)] == (Lease {
            expires_at: now.later(state.lifetime),
            token,
        }),
{
    law_reclamation_takes_expired_leases_only(
        state,
        now,
        MAX_EXPIRED_PROVIDER_MEMBERSHIPS_PER_CALL as nat,
    );
    lemma_pruned_settings(state, now, MAX_EXPIRED_PROVIDER_MEMBERSHIPS_PER_CALL as nat);
    assert(state.leases.contains_key((key, provider)));
}

/// A lookup gives back what an accepted put stored, until the lease expires.
pub proof fn law_lookup_returns_what_was_put(
    state: DirectoryState,
    key: ProviderKey,
    provider: PeerId,
    token: ProviderToken,
    now: Mono,
    later: Mono,
    budget: nat,
)
    requires
        state.put(key, provider, token, now).0,
    ensures
        ({
            let after = state.put(key, provider, token, now).1.pruned(later, budget);
            let found = after.live(key, later);
            &&& found.contains_key(provider) <==> later.nanos < now.later(state.lifetime).nanos
            &&& found.contains_key(provider) ==> found[provider] == token
        }),
{
    lemma_pruned_settings(state, now, MAX_EXPIRED_PROVIDER_MEMBERSHIPS_PER_CALL as nat);
    law_lookup_is_exact(state.put(key, provider, token, now).1, key, later, budget);
}

/// Stale memberships never make a key look saturated: with room in the
/// directory, a put is refused only if the key has its full number of live
/// providers.
pub proof fn law_refusal_needs_live_providers(
    state: DirectoryState,
    key: ProviderKey,
    provider: PeerId,
    token: ProviderToken,
    now: Mono,
)
    requires
        state.well_formed(),
        state.leases.dom().len() < state.capacity,
        !state.put(key, provider, token, now).0,
    ensures
        state.live(key, now).dom().len() == MAX_PROVIDERS_PER_KEY,
{
    let budget = MAX_EXPIRED_PROVIDER_MEMBERSHIPS_PER_CALL as nat;
    law_reclamation_takes_expired_leases_only(state, now, budget);
    lemma_pruned_settings(state, now, budget);
    let pruned = state.pruned(now, budget);
    let room = pruned.key_pruned(key, now);
    assert(room.leases.dom().subset_of(state.leases.dom())) by {
        assert forall|m: Membership| room.leases.contains_key(m) implies state.leases.contains_key(
            m,
        ) by {
            assert(pruned.leases.contains_key(m));
        }
    }
    vstd::set_lib::lemma_len_subset(room.leases.dom(), state.leases.dom());
    assert forall|p: PeerId| room.providers(key).contains(p) == state.live(key, now).dom().contains(
        p,
    ) by {
        assert(pruned.leases.contains_key((key, p)) || !pruned.leases.contains_key((key, p)));
        assert(state.leases.contains_key((key, p)) || !state.leases.contains_key((key, p)));
    }
    assert(room.providers(key) =~= state.live(key, now).dom());
    lemma_fewer_leases(state, room);
    assert(room.key_in_bounds(key));
}

} // verus!
