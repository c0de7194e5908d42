//! What a directory keeps of what it is given, and for how long.

use vstd::prelude::*;

use crate::clock::Mono;
use crate::directory::{
    deadline_order, is_earliest, is_farthest, law_reclamation_takes_expired_leases_only,
    remoteness, Deadline, DirectoryState, Lease, Membership, MAX_PROVIDERS_PER_KEY,
    MAX_PROVIDER_MEMBERSHIPS,
};
use crate::keys::{big_endian, key_space, lemma_big_endian_bound, rank, xor};
use crate::provider::{
    PeerId, ProviderKey, ProviderToken, PROVIDER_LEASE_LIFETIME, PROVIDER_RENEWAL_PERIOD,
};

verus! {

/// Leases last a day, renewal takes a third of that, and at most sixty-four
/// providers of a key and two to the twenty-fourth in all are kept.
pub proof fn law_directory_bounds()
    ensures
        PROVIDER_LEASE_LIFETIME == 24 * 3600 * 1_000_000_000,
        3 * PROVIDER_RENEWAL_PERIOD == PROVIDER_LEASE_LIFETIME,
        MAX_PROVIDERS_PER_KEY == 64,
        MAX_PROVIDER_MEMBERSHIPS == 4096 * 4096,
{
}

/// Of two memberships the one whose key is farther from the local key is more
/// remote, whoever the providers are; of two with one key, the one whose provider
/// has the greater number.
pub proof fn law_distance_decides_first(local: PeerId, a: Membership, b: Membership)
    ensures
        big_endian(xor(a.0@, local@)) < big_endian(xor(b.0@, local@)) ==> remoteness(local, a)
            < remoteness(local, b),
        a.0 == b.0 ==> (remoteness(local, a) < remoteness(local, b) <==> rank(a.1) < rank(b.1)),
{
    lemma_big_endian_bound(a.1@);
    lemma_big_endian_bound(b.1@);
    let x = big_endian(xor(a.0@, local@));
    let y = big_endian(xor(b.0@, local@));
    let space = key_space(32);
    if x < y {
        assert(x * space + space <= y * space) by (nonlinear_arith)
            requires
                x + 1 <= y,
        ;
    }
}

/// Earlier deadlines come first, whatever they are of.
pub proof fn law_earlier_deadlines_come_first(a: Deadline, b: Deadline)
    ensures
        a.0 < b.0 ==> deadline_order(a) < deadline_order(b),
{
    lemma_big_endian_bound(a.1@);
    lemma_big_endian_bound(a.2@);
    let space = key_space(32);
    let x = a.0 as nat;
    let y = b.0 as nat;
    if x < y {
        let p = rank(a.1);
        let q = rank(a.2);
        let high = x * space + p;
        let other = y * space + rank(b.1);
        assert(high + 1 <= y * space) by (nonlinear_arith)
            requires
                high == x * space + p,
                p < space,
                x + 1 <= y,
        ;
        assert(high * space + space <= other * space) by (nonlinear_arith)
            requires
                high + 1 <= other,
        ;
    }
}

/// An accepted put is a lease with that token, for a lifetime from now. A refused
/// one is none. Either way nothing else comes into the directory, and nothing that
/// stays is changed.
pub proof fn law_put_stores_what_it_accepts(
    state: DirectoryState,
    key: ProviderKey,
    provider: PeerId,
    token: ProviderToken,
    now: Mono,
)
    requires
        now.nanos + state.lifetime <= u64::MAX,
    ensures
        ({
            let (accepted, after) = state.put(key, provider, token, now);
            &&& accepted <==> after.leases.contains_key((key, provider))
            &&& accepted ==> {
                &&& after.leases[(key, provider)].token == token
                &&& after.leases[(key, provider)].expires_at.nanos == now.nanos + state.lifetime
            }
            &&& forall|other: Membership| #[trigger]
                after.leases.contains_key(other) && other != (key, provider)
                    ==> state.leases.contains_key(other) && after.leases[other]
                    == state.leases[other]
        }),
{
    let budget = 64nat;
    law_reclamation_takes_expired_leases_only(state, now, budget);
    lemma_settings(state, now, budget);
    let pruned = state.pruned(now, budget);
    let after = state.put(key, provider, token, now).1;
    assert forall|other: Membership| #[trigger]
        after.leases.contains_key(other) && other != (key, provider) implies state.leases.contains_key(
        other,
    ) && after.leases[other] == state.leases[other] by {
        assert(pruned.leases.contains_key(other));
    }
}

proof fn lemma_settings(state: DirectoryState, now: Mono, budget: nat)
    ensures
        state.pruned(now, budget).local == state.local,
        state.pruned(now, budget).lifetime == state.lifetime,
        state.pruned(now, budget).capacity == state.capacity,
    decreases budget,
{
    if budget > 0 && exists|deadline: Deadline|
        is_earliest(state.deadlines, deadline) && deadline.0 <= now.nanos {
        let deadline = choose|deadline: Deadline|
            is_earliest(state.deadlines, deadline) && deadline.0 <= now.nanos;
        lemma_settings(state.reclaimed(deadline), now, (budget - 1) as nat);
    }
}

/// A put takes a live lease of another only to make way for something closer, and
/// then it takes the most remote of all.
pub proof fn law_put_displaces_the_farthest_only(
    state: DirectoryState,
    key: ProviderKey,
    provider: PeerId,
    token: ProviderToken,
    now: Mono,
    other: Membership,
)
    requires
        state.leases.contains_key(other),
        state.leases[other].expires_at.nanos > now.nanos,
        other != (key, provider),
    ensures
        ({
            let (accepted, after) = state.put(key, provider, token, now);
            &&& !accepted ==> after.leases.contains_key(other)
            &&& !after.leases.contains_key(other) ==> {
                &&& accepted
                &&& remoteness(state.local, (key, provider)) < remoteness(state.local, other)
                &&& forall|left: Membership| #[trigger]
                    after.leases.contains_key(left) ==> remoteness(state.local, left)
                        <= remoteness(state.local, other)
            }
        }),
{
    let budget = 64nat;
    law_reclamation_takes_expired_leases_only(state, now, budget);
    lemma_settings(state, now, budget);
    let pruned = state.pruned(now, budget);
    let room = pruned.key_pruned(key, now);
    assert(pruned.leases.contains_key(other));
    assert(room.leases.contains_key(other));
    let (accepted, after) = state.put(key, provider, token, now);
    if !after.leases.contains_key(other) {
        let farthest = room.farthest()->0;
        assert(is_farthest(room.local, room.leases, farthest));
        assert(farthest == other);
        assert forall|left: Membership| #[trigger]
            after.leases.contains_key(left) implies remoteness(state.local, left) <= remoteness(
            state.local,
            other,
        ) by {
            if left != (key, provider) {
                assert(room.leases.contains_key(left));
            }
        }
    }
}

proof fn lemma_farthest_exists(local: PeerId, leases: Map<Membership, Lease>, some: Membership)
    requires
        leases.dom().finite(),
        leases.contains_key(some),
    ensures
        exists|farthest: Membership| is_farthest(local, leases, farthest),
    decreases leases.dom().len(),
{
    let rest = leases.remove(some);
    assert(rest.dom() =~= leases.dom().remove(some));
    if exists|other: Membership| rest.contains_key(other) {
        let other = choose|other: Membership| rest.contains_key(other);
        lemma_farthest_exists(local, rest, other);
        let found = choose|farthest: Membership| is_farthest(local, rest, farthest);
        let best = if remoteness(local, found) >= remoteness(local, some) {
            found
        } else {
            some
        };
        assert(rest.contains_key(found));
        assert forall|m: Membership| #[trigger] leases.contains_key(m) implies remoteness(
            local,
            best,
        ) >= remoteness(local, m) by {
            if m != some {
                assert(rest.contains_key(m));
            }
        }
        assert(is_farthest(local, leases, best));
    } else {
        assert forall|m: Membership| #[trigger] leases.contains_key(m) implies remoteness(
            local,
            some,
        ) >= remoteness(local, m) by {
            if m != some {
                assert(rest.contains_key(m));
            }
        }
        assert(is_farthest(local, leases, some));
    }
}

proof fn lemma_room(state: DirectoryState, key: ProviderKey, now: Mono)
    requires
        state.well_formed(),
    ensures
        ({
            let room = state.pruned(now, 64).key_pruned(key, now);
            &&& room.local == state.local && room.capacity == state.capacity
            &&& room.leases.dom().finite()
            &&& room.leases.dom().len() <= state.leases.dom().len()
            &&& room.providers(key) == state.live(key, now).dom()
            &&& forall|m: Membership| #[trigger]
                room.leases.contains_key(m) ==> state.leases.contains_key(m)
            &&& forall|m: Membership| #[trigger]
                state.leases.contains_key(m) && state.leases[m].expires_at.nanos > now.nanos
                    ==> room.leases.contains_key(m)
        }),
{
    law_reclamation_takes_expired_leases_only(state, now, 64);
    lemma_settings(state, now, 64);
    let pruned = state.pruned(now, 64);
    let room = pruned.key_pruned(key, now);
    assert forall|m: Membership| #[trigger]
        room.leases.contains_key(m) implies state.leases.contains_key(m) by {
        assert(pruned.leases.contains_key(m));
    }
    assert forall|m: Membership| #[trigger]
        state.leases.contains_key(m) && state.leases[m].expires_at.nanos
            > now.nanos implies room.leases.contains_key(m) by {
        assert(pruned.leases.contains_key(m));
    }
    assert(room.leases.dom().subset_of(state.leases.dom()));
    vstd::set_lib::lemma_set_subset_finite(state.leases.dom(), room.leases.dom());
    vstd::set_lib::lemma_len_subset(room.leases.dom(), state.leases.dom());
    assert forall|p: PeerId| room.providers(key).contains(p) == state.live(key, now).dom().contains(
        p,
    ) by {
        assert(pruned.leases.contains_key((key, p)) || !pruned.leases.contains_key((key, p)));
        assert(state.leases.contains_key((key, p)) || !state.leases.contains_key((key, p)));
    }
    assert(room.providers(key) =~= state.live(key, now).dom());
}

/// A put is accepted if fewer than sixty-four live providers have the key, and
/// there is room, or some live lease is more remote.
pub proof fn law_closer_keys_are_accepted(
    state: DirectoryState,
    key: ProviderKey,
    provider: PeerId,
    token: ProviderToken,
    now: Mono,
    other: Membership,
)
    requires
        state.well_formed(),
        state.live(key, now).dom().len() < 64,
        state.leases.dom().len() < state.capacity || (state.leases.contains_key(other)
            && state.leases[other].expires_at.nanos > now.nanos && remoteness(
            state.local,
            (key, provider),
        ) < remoteness(state.local, other)),
    ensures
        state.put(key, provider, token, now).0,
{
    lemma_room(state, key, now);
    lemma_settings(state, now, 64);
    let room = state.pruned(now, 64).key_pruned(key, now);
    if room.leases.dom().len() >= room.capacity {
        assert(room.leases.contains_key(other));
        lemma_farthest_exists(room.local, room.leases, other);
        let farthest = room.farthest()->0;
        assert(is_farthest(room.local, room.leases, farthest));
    }
}

/// A new provider is refused if sixty-four live providers have the key already, or
/// if the directory is full of live leases none of which is more remote.
pub proof fn law_full_directories_refuse(
    state: DirectoryState,
    key: ProviderKey,
    provider: PeerId,
    token: ProviderToken,
    now: Mono,
)
    requires
        state.well_formed(),
        !state.leases.contains_key((key, provider)),
        state.live(key, now).dom().len() >= 64 || (state.leases.dom().len() >= state.capacity
            && forall|m: Membership| #[trigger]
            state.leases.contains_key(m) ==> state.leases[m].expires_at.nanos > now.nanos
                && remoteness(state.local, m) <= remoteness(state.local, (key, provider))),
    ensures
        !state.put(key, provider, token, now).0,
{
    lemma_room(state, key, now);
    lemma_settings(state, now, 64);
    law_reclamation_takes_expired_leases_only(state, now, 64);
    let pruned = state.pruned(now, 64);
    let room = pruned.key_pruned(key, now);
    assert(!pruned.leases.contains_key((key, provider)));
    if state.live(key, now).dom().len() < 64 {
        assert(room.leases.dom() =~= state.leases.dom()) by {
            assert forall|m: Membership| state.leases.contains_key(
                m,
            ) implies room.leases.contains_key(m) by {}
        }
        if room.farthest() is Some {
            let farthest = room.farthest()->0;
            assert(is_farthest(room.local, room.leases, farthest));
            assert(state.leases.contains_key(farthest));
        }
    }
}

proof fn lemma_earliest_exists(deadlines: Set<Deadline>, some: Deadline)
    requires
        deadlines.finite(),
        deadlines.contains(some),
    ensures
        exists|earliest: Deadline| #[trigger]
            is_earliest(deadlines, earliest) && deadline_order(earliest) <= deadline_order(some),
    decreases deadlines.len(),
{
    let rest = deadlines.remove(some);
    if exists|other: Deadline| rest.contains(other) {
        let other = choose|other: Deadline| rest.contains(other);
        lemma_earliest_exists(rest, other);
        let found = choose|earliest: Deadline| #[trigger]
            is_earliest(rest, earliest) && deadline_order(earliest) <= deadline_order(other);
        let best = if deadline_order(found) <= deadline_order(some) {
            found
        } else {
            some
        };
        assert forall|d: Deadline| #[trigger] deadlines.contains(d) implies deadline_order(best)
            <= deadline_order(d) by {
            if d != some {
                assert(rest.contains(d));
            }
        }
        assert(rest.contains(found));
        assert(is_earliest(deadlines, best));
    } else {
        assert forall|d: Deadline| #[trigger] deadlines.contains(d) implies deadline_order(some)
            <= deadline_order(d) by {
            if d != some {
                assert(rest.contains(d));
            }
        }
        assert(is_earliest(deadlines, some));
    }
}

/// Reclamation with a budget for every index entry leaves no expired lease.
pub proof fn law_reclamation_takes_every_expired_lease(
    state: DirectoryState,
    now: Mono,
    budget: nat,
)
    requires
        state.deadlines.finite(),
        state.deadlines.len() <= budget,
        forall|m: Membership| #[trigger]
            state.leases.contains_key(m) ==> state.deadlines.contains(state.deadline(m)),
    ensures
        forall|m: Membership| #[trigger]
            state.pruned(now, budget).leases.contains_key(m) ==> state.pruned(
                now,
                budget,
            ).leases[m].expires_at.nanos > now.nanos,
    decreases budget,
{
    if budget > 0 && exists|deadline: Deadline|
        is_earliest(state.deadlines, deadline) && deadline.0 <= now.nanos {
        let deadline = choose|deadline: Deadline|
            is_earliest(state.deadlines, deadline) && deadline.0 <= now.nanos;
        let next = state.reclaimed(deadline);
        assert forall|m: Membership| #[trigger]
            next.leases.contains_key(m) implies next.deadlines.contains(next.deadline(m)) by {
            assert(state.leases.contains_key(m));
            if state.deadline(m) == deadline {
                assert(m == (deadline.1, deadline.2));
            }
        }
        law_reclamation_takes_every_expired_lease(next, now, (budget - 1) as nat);
        assert(state.pruned(now, budget) == next.pruned(now, (budget - 1) as nat));
    } else {
        assert(state.pruned(now, budget) == state);
        assert forall|m: Membership| #[trigger]
            state.leases.contains_key(m) implies state.leases[m].expires_at.nanos > now.nanos by {
            let due = state.deadline(m);
            assert(state.deadlines.contains(due));
            if due.0 <= now.nanos {
                lemma_earliest_exists(state.deadlines, due);
                let earliest = choose|earliest: Deadline| #[trigger]
                    is_earliest(state.deadlines, earliest) && deadline_order(earliest)
                        <= deadline_order(due);
                law_earlier_deadlines_come_first(due, earliest);
                assert(earliest.0 <= now.nanos);
                assert(state.deadlines.len() > 0) by {
                    if state.deadlines.len() == 0 {
                        assert(state.deadlines =~= Set::empty());
                    }
                }
            }
        }
    }
}

/// Making room at a key takes the expired leases of that key with their index
/// entries, and nothing else.
pub proof fn law_room_is_made_at_one_key(
    state: DirectoryState,
    key: ProviderKey,
    now: Mono,
    membership: Membership,
)
    requires
        state.leases.contains_key(membership),
        state.deadlines.contains(state.deadline(membership)),
    ensures
        ({
            let after = state.key_pruned(key, now);
            let gone = membership.0 == key && state.leases[membership].expires_at.nanos
                <= now.nanos;
            &&& after.leases.contains_key(membership) <==> !gone
            &&& after.deadlines.contains(state.deadline(membership)) <==> !gone
            &&& !gone ==> after.leases[membership] == state.leases[membership]
        }),
{
}

/// A lease that ends early, or is renewed, takes its index entry with it, and a new
/// lease brings its own.
pub proof fn law_leases_and_deadlines_come_and_go_together(
    state: DirectoryState,
    membership: Membership,
    token: ProviderToken,
    now: Mono,
    other: Deadline,
)
    requires
        state.leases.contains_key(membership),
        now.nanos + state.lifetime <= u64::MAX,
    ensures
        ({
            let removed = state.removed(membership);
            let leased = state.leased(membership, token, now);
            let due = ((now.nanos + state.lifetime) as u64, membership.0, membership.1);
            &&& !removed.leases.contains_key(membership)
            &&& removed.deadlines.contains(other) <==> state.deadlines.contains(other) && other
                != (state.leases[membership].expires_at.nanos, membership.0, membership.1)
            &&& leased.deadlines.contains(other) <==> state.deadlines.contains(other) || other
                == due
        }),
{
}

/// A lookup at a time finds exactly the providers whose lease ends later, each with
/// the token of its lease.
pub proof fn law_lookup_finds_unexpired_leases(
    state: DirectoryState,
    key: ProviderKey,
    now: Mono,
    provider: PeerId,
)
    ensures
        state.live(key, now).contains_key(provider) <==> state.leases.contains_key((key, provider))
            && state.leases[(key, provider)].expires_at.nanos > now.nanos,
        state.live(key, now).contains_key(provider) ==> state.live(key, now)[provider]
            == state.leases[(key, provider)].token,
{
}

} // verus!
