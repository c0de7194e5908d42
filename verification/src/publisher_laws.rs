//! What the publication scheduler owes: outages end, work is kept, retries and
//! renewals keep their time.

use vstd::prelude::*;

use crate::clock::Mono;
use crate::key_map::{is_least, lists_keys};
use crate::keys::rank;
use crate::provider::{PeerId, ProviderIdentity, ProviderKey};
use crate::publisher::{
    cycle_turn, law_idle_means_nothing_waits, law_pending_hands_out_one_key, lemma_ordered_keys,
    put_outcome, remote_answered, renewal_interval, topology_delay,
    CycleState, ProviderPublication, ProviderPutResult, PublicationLane, PublicationResult,
    PublicationTopologyOutage, PublisherState,
};

verus! {

/// Any answer of a remote peer, a refusal too, ends an outage: nothing pauses
/// afterwards, whatever the time, and what waits is handed out. The effect tells
/// of a recovery exactly if there was an outage.
pub proof fn law_remote_answer_ends_an_outage(
    state: PublisherState,
    work: ProviderPublication,
    result: PublicationResult,
    now: Mono,
    later: Mono,
    waiting: ProviderKey,
)
    requires
        state.well_formed(),
        result == PublicationResult::Published || result == PublicationResult::RemoteRejected,
    ensures
        state.completed(work, result, now).topology_outage is None,
        !state.completed(work, result, now).paused(later),
        state.effect(work, result).topology_recovered <==> state.topology_outage is Some,
        !state.effect(work, result).topology_outage_started,
        state.startup.contains_key(waiting) || state.additions.contains_key(waiting)
            ==> state.completed(work, result, now).scheduled(later).0 is Some,
{
    let after = state.completed(work, result, now);
    lemma_retries_bounded(state, work.key, now);
    if after.scheduled(later).0 is None {
        law_idle_means_nothing_waits(after, later);
        assert(!after.startup.contains_key(waiting));
        assert(!after.additions.contains_key(waiting));
    }
}

proof fn lemma_retries_bounded(state: PublisherState, key: ProviderKey, now: Mono)
    requires
        state.well_formed(),
    ensures
        state.retried(key, now).well_formed(),
        (PublisherState { topology_outage: None, ..state }).retried(key, now).well_formed(),
{
    vstd::set_lib::lemma_set_subset_finite(state.resident.dom(), state.retries.dom());
    if !state.retry_refused(key) && state.resident.contains_key(key) {
        assert(state.retries.insert(key, state.resident[key]).dom() =~= state.retries.dom().insert(
            key,
        ));
    }
}

/// An effect that reports recovery is the end of the outage.
pub proof fn law_reported_recovery_is_real(
    state: PublisherState,
    work: ProviderPublication,
    result: PublicationResult,
    now: Mono,
)
    requires
        state.effect(work, result).topology_recovered,
    ensures
        state.topology_outage is Some,
        state.completed(work, result, now).topology_outage is None,
{
}

/// The first publication that reaches nobody starts an outage, and the effect
/// says so. For a second nothing is handed out; then one probe is, if anything
/// waits.
pub proof fn law_silence_starts_an_outage(
    state: PublisherState,
    work: ProviderPublication,
    now: Mono,
    later: Mono,
)
    requires
        state.topology_outage is None,
        now.nanos + 1_000_000_000 <= u64::MAX,
    ensures
        ({
            let silent = PublicationResult::NoAuthenticatedRemoteReplica;
            let after = state.completed(work, silent, now);
            &&& state.effect(work, silent).topology_outage_started
            &&& !state.effect(work, silent).topology_recovered
            &&& !state.effect(work, silent).retry_budget_full
            &&& after.topology_outage matches Some(outage) && outage.attempts == 1 && outage.probe
                is None && outage.retry_at.nanos == now.nanos + 1_000_000_000
            &&& after.paused(later) <==> later.nanos < now.nanos + 1_000_000_000
            &&& later.nanos < now.nanos + 1_000_000_000 ==> after.scheduled(later) == (
                None::<ProviderPublication>,
                after,
            )
        }),
{
    law_probe_delay_doubles(1);
}

/// The delay between probes is a second at first, doubles each time, and never
/// exceeds a minute.
pub proof fn law_probe_delay_doubles(attempts: nat)
    ensures
        topology_delay(0) == 1_000_000_000,
        topology_delay(1) == 1_000_000_000,
        attempts >= 1 && 2 * topology_delay(attempts) <= 60_000_000_000 ==> topology_delay(
            attempts + 1,
        ) == 2 * topology_delay(attempts),
        attempts >= 1 && 2 * topology_delay(attempts) > 60_000_000_000 ==> topology_delay(
            attempts + 1,
        ) == 60_000_000_000,
        1_000_000_000 <= topology_delay(attempts) <= 60_000_000_000,
{
    vstd::arithmetic::power2::lemma2_to64();
}

/// Only the probe of an outage makes it wait longer. Another publication that
/// reaches nobody leaves the outage as it is; neither counts as its start.
pub proof fn law_only_the_probe_backs_off(
    state: PublisherState,
    outage: PublicationTopologyOutage,
    work: ProviderPublication,
    now: Mono,
)
    requires
        state.topology_outage == Some(outage),
        now.nanos + 60_000_000_000 <= u64::MAX,
        outage.attempts < u32::MAX,
    ensures
        ({
            let silent = PublicationResult::NoAuthenticatedRemoteReplica;
            let after = state.completed(work, silent, now).topology_outage;
            &&& !state.effect(work, silent).topology_outage_started
            &&& !state.effect(work, silent).topology_recovered
            &&& after is Some
            &&& outage.probe != Some(work.key) ==> after->0 == outage
            &&& outage.probe == Some(work.key) ==> {
                &&& (after->0).probe is None
                &&& (after->0).attempts == outage.attempts + 1
                &&& (after->0).retry_at.nanos == now.nanos + topology_delay(
                    (outage.attempts + 1) as nat,
                )
            }
        }),
{
    law_probe_delay_doubles((outage.attempts + 1) as nat);
}

/// An outage hands nothing out before its time or while its probe is under way.
/// After that it hands out what waits, and the key that it hands out is its
/// probe; its time and its count of attempts stay.
pub proof fn law_outage_hands_out_one_probe(
    state: PublisherState,
    outage: PublicationTopologyOutage,
    now: Mono,
    waiting: ProviderKey,
)
    requires
        state.well_formed(),
        state.topology_outage == Some(outage),
    ensures
        outage.probe is Some || now.nanos < outage.retry_at.nanos ==> state.scheduled(now) == (
            None::<ProviderPublication>,
            state,
        ),
        outage.probe is None && now.nanos >= outage.retry_at.nanos && (state.startup.contains_key(
            waiting,
        ) || state.additions.contains_key(waiting)) ==> state.scheduled(now).0 is Some,
        outage.probe is None && now.nanos >= outage.retry_at.nanos ==> {
            let (work, after) = state.scheduled(now);
            &&& work is None ==> after.topology_outage == Some(outage)
            &&& work matches Some(work) ==> after.topology_outage == Some(
                PublicationTopologyOutage {
                    attempts: outage.attempts,
                    retry_at: outage.retry_at,
                    probe: Some(work.key),
                },
            )
        },
{
    lemma_outage_kept(state, now);
    if !state.paused(now) && state.scheduled(now).0 is None {
        law_idle_means_nothing_waits(state, now);
        assert(!state.startup.contains_key(waiting));
        assert(!state.additions.contains_key(waiting));
    }
}

proof fn lemma_outage_kept(state: PublisherState, now: Mono)
    ensures
        state.ready(now).1.topology_outage == state.topology_outage,
{
}

/// Without an outage, handing out work starts none.
pub proof fn law_scheduling_starts_no_outage(state: PublisherState, now: Mono)
    requires
        state.topology_outage is None,
    ensures
        state.scheduled(now).1.topology_outage is None,
        !state.paused(now),
{
    lemma_outage_kept(state, now);
}

/// A published key is done: no queue takes it back, and no queue, time or turn
/// changes.
pub proof fn law_published_key_is_done(
    state: PublisherState,
    work: ProviderPublication,
    now: Mono,
)
    ensures
        ({
            let after = state.completed(work, PublicationResult::Published, now);
            &&& after == PublisherState { topology_outage: None, ..state }
            &&& !state.effect(work, PublicationResult::Published).retry_budget_full
        }),
{
}

/// A refused key that is still resident waits for a retry with its identity, a
/// second later where it is alone and with the others where it is not. No other
/// queue changes. Where a thousand and twenty-four others wait already it is
/// dropped, and the effect says so.
pub proof fn law_refused_key_is_retried(
    state: PublisherState,
    work: ProviderPublication,
    now: Mono,
)
    requires
        state.well_formed(),
        now.nanos + 1_000_000_000 <= u64::MAX,
    ensures
        ({
            let refused = PublicationResult::RemoteRejected;
            let after = state.completed(work, refused, now);
            let full = state.retries.dom().len() >= 1024 && !state.retries.contains_key(work.key);
            &&& state.effect(work, refused).retry_budget_full <==> full
            &&& !full && state.resident.contains_key(work.key) ==> {
                &&& after.retries.contains_key(work.key)
                &&& after.retries[work.key] == state.resident[work.key]
            }
            &&& full || !state.resident.contains_key(work.key) ==> after.retries == state.retries
                && after.retry_at == state.retry_at
            &&& forall|other: ProviderKey|
                other != work.key ==> (#[trigger] after.retries.contains_key(other)
                    <==> state.retries.contains_key(other)) && (state.retries.contains_key(other)
                    ==> after.retries[other] == state.retries[other])
            &&& !full && state.resident.contains_key(work.key) && state.retries.dom().len() == 0
                ==> after.retry_at.nanos == now.nanos + 1_000_000_000
            &&& state.retries.dom().len() > 0 ==> after.retry_at == state.retry_at
            &&& after.startup == state.startup && after.additions == state.additions
            &&& after.resident == state.resident && after.cycle == state.cycle
            &&& after.next_renewal == state.next_renewal
        }),
{
    vstd::set_lib::lemma_set_subset_finite(state.resident.dom(), state.retries.dom());
    if state.retries == Map::<ProviderKey, ProviderIdentity>::empty() {
        assert(state.retries.dom() =~= Set::<ProviderKey>::empty());
    }
    if state.retries.dom().len() == 0 {
        assert(state.retries.dom() =~= Set::<ProviderKey>::empty());
        assert(state.retries =~= Map::<ProviderKey, ProviderIdentity>::empty());
    }
}

/// A publication that reached nobody waits again where it came from, if it is
/// still resident: startup work with startup work, an arrival with the arrivals.
/// Everything that waited goes on waiting, and nothing is queued for a retry.
pub proof fn law_unreached_key_returns_to_its_lane(
    state: PublisherState,
    work: ProviderPublication,
    now: Mono,
    other: ProviderKey,
)
    ensures
        ({
            let after = state.completed(
                work,
                PublicationResult::NoAuthenticatedRemoteReplica,
                now,
            );
            let back = state.resident.contains_key(work.key);
            &&& after.startup.contains_key(other) <==> state.startup.contains_key(other) || (back
                && other == work.key && work.lane == PublicationLane::Startup)
            &&& after.additions.contains_key(other) <==> state.additions.contains_key(other) || (
            back && other == work.key && work.lane == PublicationLane::Incremental)
            &&& after.retries == state.retries && after.retry_at == state.retry_at
            &&& after.resident == state.resident && after.cycle == state.cycle
            &&& after.next_renewal == state.next_renewal
        }),
{
}

/// A new scheduler has nothing to publish, no outage and no traversal. Its first
/// turn is for startup work, and its first renewal is due eight hours later.
pub proof fn law_a_new_scheduler_is_idle(now: Mono)
    requires
        now.nanos + 28_800_000_000_000 <= u64::MAX,
    ensures
        ({
            let fresh = PublisherState::initial(now);
            let none = Map::<ProviderKey, ProviderIdentity>::empty();
            &&& !fresh.initialized
            &&& fresh.resident == none && fresh.startup == none
            &&& fresh.additions == none && fresh.retries == none
            &&& fresh.cycle is None && fresh.topology_outage is None
            &&& fresh.prefer_startup && !fresh.prefer_retry && !fresh.prefer_cycle
            &&& fresh.retry_at == now
            &&& fresh.next_renewal.nanos == now.nanos + 28_800_000_000_000
        }),
{
}

/// A first resident set is startup work as a whole, and its first renewal is due
/// eight hours later.
pub proof fn law_first_set_is_startup_work(
    state: PublisherState,
    resident: Map<ProviderKey, ProviderIdentity>,
    now: Mono,
)
    requires
        !state.initialized,
        now.nanos + 28_800_000_000_000 <= u64::MAX,
    ensures
        ({
            let after = state.installed(resident, now);
            &&& after.initialized
            &&& after.resident == resident && after.startup == resident
            &&& after.additions == state.additions && after.retries == state.retries
            &&& after.next_renewal.nanos == now.nanos + 28_800_000_000_000
            &&& after.topology_outage == state.topology_outage
        }),
{
}

/// A later resident set queues exactly its new keys, as arrivals: a key that was
/// resident before and still is waits where it waited, or not at all, and a key
/// that is gone waits nowhere. Neither an outage nor any time changes.
pub proof fn law_later_set_queues_new_keys_only(
    state: PublisherState,
    resident: Map<ProviderKey, ProviderIdentity>,
    now: Mono,
    key: ProviderKey,
)
    requires
        state.well_formed(),
        state.initialized,
    ensures
        ({
            let after = state.installed(resident, now);
            &&& after.resident == resident && after.initialized
            &&& after.startup.contains_key(key) <==> state.startup.contains_key(key)
                && resident.contains_key(key)
            &&& after.retries.contains_key(key) <==> state.retries.contains_key(key)
                && resident.contains_key(key)
            &&& after.additions.contains_key(key) <==> resident.contains_key(key) && (
            state.additions.contains_key(key) || !state.resident.contains_key(key))
            &&& after.additions.contains_key(key) && !state.additions.contains_key(key)
                ==> after.additions[key] == resident[key]
            &&& after.cycle == state.cycle && after.next_renewal == state.next_renewal
            &&& after.retry_at == state.retry_at
            &&& after.topology_outage == state.topology_outage
        }),
{
}

/// A retry comes no earlier than its time, as historical work and no fresh arrival.
/// Once one is handed out, the next comes a second later at the earliest.
pub proof fn law_retries_are_a_second_apart(state: PublisherState, now: Mono, later: Mono)
    requires
        state.well_formed(),
        now.nanos + 1_000_000_000 <= u64::MAX,
    ensures
        now.nanos < state.retry_at.nanos ==> state.retry_turn(now) == (
            None::<ProviderPublication>,
            state,
        ),
        now.nanos >= state.retry_at.nanos && state.retries != Map::<
            ProviderKey,
            ProviderIdentity,
        >::empty() ==> {
            let (work, after) = state.retry_turn(now);
            &&& work matches Some(work) && is_least(state.retries, work.key)
            &&& (work->0).lane == PublicationLane::Startup
            &&& (work->0).identity == state.resident[(work->0).key]
            &&& after.retries == state.retries.remove((work->0).key)
            &&& after.startup == state.startup && after.additions == state.additions
            &&& after.retry_at.nanos == now.nanos + 1_000_000_000
            &&& later.nanos < now.nanos + 1_000_000_000 ==> after.retry_turn(later).0 is None
        },
{
    vstd::set_lib::lemma_set_subset_finite(state.resident.dom(), state.retries.dom());
    law_pending_hands_out_one_key(state.retries, state.resident);
}

/// With arrivals and due retries waiting, the one whose turn it is comes first and
/// the other has the next turn.
pub proof fn law_arrivals_and_retries_take_turns(state: PublisherState, now: Mono)
    requires
        state.well_formed(),
        state.cycle is None,
        now.nanos < state.next_renewal.nanos,
        now.nanos >= state.retry_at.nanos,
        state.startup != Map::<ProviderKey, ProviderIdentity>::empty() || state.additions != Map::<
            ProviderKey,
            ProviderIdentity,
        >::empty(),
        state.retries != Map::<ProviderKey, ProviderIdentity>::empty(),
    ensures
        ({
            let (work, after) = state.ready(now);
            &&& work is Some
            &&& after.prefer_retry == !state.prefer_retry
            &&& state.prefer_retry ==> {
                &&& state.retries.contains_key((work->0).key)
                &&& after.retries == state.retries.remove((work->0).key)
                &&& after.startup == state.startup && after.additions == state.additions
            }
            &&& !state.prefer_retry ==> {
                &&& after.retries == state.retries
                &&& after.startup == state.startup.remove((work->0).key) || after.additions
                    == state.additions.remove((work->0).key)
                &&& state.startup.contains_key((work->0).key) || state.additions.contains_key(
                    (work->0).key,
                )
            }
        }),
{
    vstd::set_lib::lemma_set_subset_finite(state.resident.dom(), state.startup.dom());
    vstd::set_lib::lemma_set_subset_finite(state.resident.dom(), state.additions.dom());
    vstd::set_lib::lemma_set_subset_finite(state.resident.dom(), state.retries.dom());
    law_pending_hands_out_one_key(state.startup, state.resident);
    law_pending_hands_out_one_key(state.additions, state.resident);
    law_pending_hands_out_one_key(state.retries, state.resident);
}

/// Each arrival is the least key of its lane, and only that key leaves.
pub proof fn law_arrivals_come_in_key_order(state: PublisherState)
    requires
        state.well_formed(),
    ensures
        ({
            let (work, after) = state.arrival();
            &&& work is None <==> state.startup == Map::<ProviderKey, ProviderIdentity>::empty()
                && state.additions == Map::<ProviderKey, ProviderIdentity>::empty()
            &&& work matches Some(work) ==> match work.lane {
                PublicationLane::Startup => {
                    &&& is_least(state.startup, work.key)
                    &&& after.startup == state.startup.remove(work.key)
                    &&& after.additions == state.additions
                    &&& !after.prefer_startup
                },
                PublicationLane::Incremental => {
                    &&& is_least(state.additions, work.key)
                    &&& after.additions == state.additions.remove(work.key)
                    &&& after.startup == state.startup
                    &&& after.prefer_startup
                },
            }
            &&& after.retries == state.retries && after.retry_at == state.retry_at
        }),
{
    vstd::set_lib::lemma_set_subset_finite(state.resident.dom(), state.startup.dom());
    vstd::set_lib::lemma_set_subset_finite(state.resident.dom(), state.additions.dom());
    law_pending_hands_out_one_key(state.startup, state.resident);
    law_pending_hands_out_one_key(state.additions, state.resident);
    let empty = Map::<ProviderKey, ProviderIdentity>::empty();
    if state.startup == empty {
        assert(crate::publisher::still_pending(state.startup, None) =~= state.startup);
    }
    if state.additions == empty {
        assert(crate::publisher::still_pending(state.additions, None) =~= state.additions);
    }
}

/// A renewal that was served gives the next turn to what waits: a pending key is
/// handed out then, even if another renewal is due.
pub proof fn law_pending_work_follows_a_renewal(state: PublisherState, now: Mono, later: Mono)
    requires
        state.well_formed(),
        state.ready(now).0 is Some,
        !state.serves_pending(now),
    ensures
        !state.ready(now).1.prefer_cycle,
        state.ready(now).1.startup != Map::<ProviderKey, ProviderIdentity>::empty() || state.ready(
            now,
        ).1.additions != Map::<ProviderKey, ProviderIdentity>::empty() ==> state.ready(
            now,
        ).1.serves_pending(later),
{
    let after = state.ready(now).1;
    let begun = after.cycle_begun(later);
    lemma_ready_keeps_resident(state, now);
    if after.startup != Map::<ProviderKey, ProviderIdentity>::empty() || after.additions != Map::<
        ProviderKey,
        ProviderIdentity,
    >::empty() {
        vstd::set_lib::lemma_set_subset_finite(begun.resident.dom(), begun.startup.dom());
        vstd::set_lib::lemma_set_subset_finite(begun.resident.dom(), begun.additions.dom());
        law_pending_hands_out_one_key(begun.startup, begun.resident);
        law_pending_hands_out_one_key(begun.additions, begun.resident);
    }
}

proof fn lemma_ready_keeps_resident(state: PublisherState, now: Mono)
    requires
        state.well_formed(),
    ensures
        state.ready(now).1.resident == state.resident,
        state.ready(now).1.startup.dom().subset_of(state.startup.dom()),
        state.ready(now).1.additions.dom().subset_of(state.additions.dom()),
{
}

/// A renewal traversal begins once its time has come and none is under way, with
/// every resident key in ascending order and the first due at once. It does not
/// begin earlier.
pub proof fn law_renewal_begins_when_due(
    state: PublisherState,
    now: Mono,
    keys: Seq<ProviderKey>,
)
    requires
        lists_keys(keys, state.resident),
        state.initialized,
        state.cycle is None,
        state.resident.dom().finite(),
    ensures
        now.nanos < state.next_renewal.nanos ==> state.cycle_begun(now) == state,
        now.nanos >= state.next_renewal.nanos && keys.len() > 0 ==> {
            let begun = state.cycle_begun(now);
            &&& begun.cycle matches Some(cycle) && cycle.keys == keys && cycle.remaining
                == keys.len() && cycle.started == now && cycle.next_due == now
            &&& begun.startup == state.startup && begun.additions == state.additions
            &&& begun.retries == state.retries
        },
        now.nanos >= state.next_renewal.nanos && keys.len() == 0 && now.nanos
            + 28_800_000_000_000 <= u64::MAX ==> {
            let begun = state.cycle_begun(now);
            &&& begun.cycle is None
            &&& begun.next_renewal.nanos == now.nanos + 28_800_000_000_000
        },
{
    lemma_ordered_keys(keys, state.resident);
    lemma_listed_count(keys, state.resident);
    if keys.len() > 0 {
        assert(state.resident.contains_key(keys[0]));
    } else {
        assert forall|key: ProviderKey| !state.resident.contains_key(key) by {
            if state.resident.contains_key(key) {
                assert(keys.contains(key));
            }
        }
        assert(state.resident =~= Map::<ProviderKey, ProviderIdentity>::empty());
    }
}

proof fn lemma_listed_count(keys: Seq<ProviderKey>, map: Map<ProviderKey, ProviderIdentity>)
    requires
        lists_keys(keys, map),
    ensures
        map.dom().len() == keys.len(),
{
    assert(keys.no_duplicates()) by {
        assert forall|i: int, j: int|
            0 <= i < keys.len() && 0 <= j < keys.len() && i != j implies keys[i] != keys[j] by {
            if i < j {
                assert(rank(keys[i]) < rank(keys[j]));
            } else {
                assert(rank(keys[j]) < rank(keys[i]));
            }
        }
    }
    keys.unique_seq_to_set();
    assert(keys.to_set() =~= map.dom()) by {
        assert forall|key: ProviderKey| keys.to_set().contains(key) == map.dom().contains(key) by {
            if map.contains_key(key) {
                assert(keys.contains(key));
            }
        }
    }
}

/// A traversal under way renews nothing before its next key is due. Then it
/// renews that key, if it is still resident, and the following one is due an equal
/// share of eight hours after it. With its last key it ends, and the next
/// traversal is due eight hours after the start of this one.
pub proof fn law_renewals_are_spread_over_the_period(
    state: PublisherState,
    cycle: CycleState,
    now: Mono,
)
    requires
        state.cycle == Some(cycle),
        0 < cycle.remaining <= cycle.keys.len(),
        cycle.started.nanos + 28_800_000_000_000 <= u64::MAX,
        cycle.next_due.nanos + 28_800_000_000_000 <= u64::MAX,
    ensures
        now.nanos < cycle.next_due.nanos ==> state.renewal(now) == (
            None::<ProviderPublication>,
            state,
        ),
        now.nanos >= cycle.next_due.nanos && state.resident.contains_key(
            cycle.keys[cycle.keys.len() - cycle.remaining],
        ) ==> {
            let key = cycle.keys[cycle.keys.len() - cycle.remaining];
            let (work, after) = state.renewal(now);
            &&& work == Some(
                ProviderPublication {
                    key,
                    identity: state.resident[key],
                    lane: PublicationLane::Startup,
                },
            )
            &&& cycle.remaining > 1 ==> {
                &&& after.cycle matches Some(rest) && rest.keys == cycle.keys && rest.remaining
                    == cycle.remaining - 1 && rest.started == cycle.started && rest.next_due.nanos
                    == cycle.next_due.nanos + renewal_interval(cycle.keys.len())
                &&& after.next_renewal == state.next_renewal
            }
            &&& cycle.remaining == 1 ==> after.cycle is None && after.next_renewal.nanos
                == cycle.started.nanos + 28_800_000_000_000
            &&& after.startup == state.startup && after.additions == state.additions
            &&& after.retries == state.retries
        },
{
    law_renewal_interval_is_an_equal_share(cycle.keys.len());
}

/// The time between two renewals is an equal share of eight hours, rounded down
/// to a nanosecond, and a nanosecond at least.
pub proof fn law_renewal_interval_is_an_equal_share(total: nat)
    requires
        total > 0,
    ensures
        1 <= renewal_interval(total) <= 28_800_000_000_000,
        total <= 28_800_000_000_000 ==> total * renewal_interval(total) <= 28_800_000_000_000
            < total * (renewal_interval(total) + 1),
        total > 28_800_000_000_000 ==> renewal_interval(total) == 1,
{
    let period: nat = 28_800_000_000_000;
    vstd::arithmetic::div_mod::lemma_fundamental_div_mod(period as int, total as int);
    vstd::arithmetic::div_mod::lemma_mod_bound(period as int, total as int);
    let share = period / total;
    let rest = period as int % total as int;
    assert(total * (share + 1) == total * share + total) by (nonlinear_arith);
    assert(share <= period) by (nonlinear_arith)
        requires
            period == total * share + rest,
            rest >= 0,
            total >= 1,
    ;
    if total <= period {
        assert(share >= 1) by (nonlinear_arith)
            requires
                period == total * share + rest,
                rest < total,
                total <= period,
                share >= 0,
        ;
    } else {
        assert(share == 0) by (nonlinear_arith)
            requires
                period == total * share + rest,
                rest >= 0,
                total > period,
                share >= 0,
        ;
    }
}

/// A key that is no longer resident is passed over in a traversal, in the same
/// call: the call goes on with the key behind it as if it had been reached.
pub proof fn law_renewal_passes_over_what_is_gone(
    cycle: CycleState,
    resident: Map<ProviderKey, ProviderIdentity>,
    now: Mono,
)
    requires
        1 < cycle.remaining <= cycle.keys.len(),
        now.nanos >= cycle.next_due.nanos,
        !resident.contains_key(cycle.keys[cycle.keys.len() - cycle.remaining]),
    ensures
        cycle_turn(cycle, resident, now) == cycle_turn(
            CycleState {
                keys: cycle.keys,
                started: cycle.started,
                remaining: (cycle.remaining - 1) as nat,
                next_due: cycle.next_due.later(renewal_interval(cycle.keys.len())),
            },
            resident,
            now,
        ),
{
}

/// One acceptance by a remote peer publishes, whatever the others answer.
pub proof fn law_one_acceptance_publishes(
    local: PeerId,
    results: Seq<(PeerId, ProviderPutResult)>,
    at: int,
)
    requires
        0 <= at < results.len(),
        results[at].0 != local,
        results[at].1 == ProviderPutResult::Accepted,
    ensures
        put_outcome(local, results) == PublicationResult::Published,
{
}

/// Without a remote acceptance, one refusal by a remote peer is a refusal, and
/// silence, or answers of the local peer alone, reached nobody.
pub proof fn law_unaccepted_put_is_refused_or_unheard(
    local: PeerId,
    results: Seq<(PeerId, ProviderPutResult)>,
)
    requires
        forall|i: int|
            0 <= i < results.len() ==> (#[trigger] results[i]).0 == local || results[i].1
                != ProviderPutResult::Accepted,
    ensures
        put_outcome(local, results) != PublicationResult::Published,
        put_outcome(local, results) == PublicationResult::RemoteRejected <==> exists|i: int|
            0 <= i < results.len() && (#[trigger] results[i]).0 != local && results[i].1
                == ProviderPutResult::ExplicitlyRejected,
        (forall|i: int|
            0 <= i < results.len() ==> (#[trigger] results[i]).0 == local || results[i].1
                == ProviderPutResult::Unavailable) ==> put_outcome(local, results)
            == PublicationResult::NoAuthenticatedRemoteReplica,
{
    if remote_answered(local, results, ProviderPutResult::ExplicitlyRejected) {
        let i = choose|i: int|
            0 <= i < results.len() && (#[trigger] results[i]).0 != local && results[i].1
                == ProviderPutResult::ExplicitlyRejected;
        assert(results[i].0 != local);
    }
}

} // verus!
