//! Without an outage, everything that waits is published.

use vstd::prelude::*;

use crate::clock::Mono;
use crate::key_map::{is_least, lists_keys};
use crate::keys::{lemma_rank_injective, rank};
use crate::provider::{
    ProviderIdentity, ProviderKey, PROVIDER_RENEWAL_PERIOD, RETRY_BACKOFF_BASE,
};
use crate::publisher::{
    cycle_turn, law_idle_means_nothing_waits, law_pending_hands_out_one_key, next_pending,
    renewal_interval, CycleState, ProviderPublication, PublicationLane, PublisherState,
};

verus! {

impl PublisherState {
    /// How many renewals can be due at `now`: what is left of the traversal under
    /// way, and a whole one where the next is due.
    pub open spec fn renewals_due(self, now: Mono) -> nat {
        match self.cycle {
            Some(cycle) => cycle.remaining + if now.nanos >= cycle.started.later(
                PROVIDER_RENEWAL_PERIOD as nat,
            ).nanos {
                self.resident.dom().len()
            } else {
                0
            },
            None => if now.nanos >= self.next_renewal.nanos {
                self.resident.dom().len()
            } else {
                0
            },
        }
    }

    /// How many publications can be handed out at `now`: the startup and the
    /// incremental work, a retry if one is due, and the renewals.
    pub open spec fn publications_due(self, now: Mono) -> nat {
        self.startup.dom().len() + self.additions.dom().len() + (if self.retries != Map::<
            ProviderKey,
            ProviderIdentity,
        >::empty() && now.nanos >= self.retry_at.nanos {
            1nat
        } else {
            0nat
        }) + self.renewals_due(now)
    }

    /// After `count` calls at `now`.
    pub open spec fn scheduled_repeatedly(self, now: Mono, count: nat) -> PublisherState
        decreases count,
    {
        if count == 0 {
            self
        } else {
            self.scheduled(now).1.scheduled_repeatedly(now, (count - 1) as nat)
        }
    }
}

/// A traversal that renews a key has fewer left.
proof fn lemma_cycle_turn_shrinks(
    cycle: CycleState,
    resident: Map<ProviderKey, ProviderIdentity>,
    now: Mono,
)
    ensures
        cycle_turn(cycle, resident, now).1 matches Some(rest) ==> rest.remaining <= cycle.remaining
            && rest.started == cycle.started && (cycle_turn(cycle, resident, now).0 is Some
            ==> rest.remaining < cycle.remaining),
        cycle_turn(cycle, resident, now).1 is None ==> cycle.remaining > 0,
    decreases cycle.remaining,
{
    if cycle.remaining > 0 && now.nanos >= cycle.next_due.nanos {
        let rest = CycleState {
            remaining: (cycle.remaining - 1) as nat,
            next_due: cycle.next_due.later(renewal_interval(cycle.keys.len())),
            ..cycle
        };
        lemma_cycle_turn_shrinks(rest, resident, now);
    }
}

/// A turn of the traversal takes a renewal that was due, or none.
proof fn lemma_renewal_takes(state: PublisherState, now: Mono)
    requires
        state.resident.dom().finite(),
    ensures
        ({
            let (work, after) = state.renewal(now);
            &&& after == (PublisherState {
                cycle: after.cycle,
                next_renewal: after.next_renewal,
                ..state
            })
            &&& after.renewals_due(now) <= state.renewals_due(now)
            &&& work is Some ==> after.renewals_due(now) < state.renewals_due(now)
        }),
{
    if let Some(cycle) = state.cycle {
        lemma_cycle_turn_shrinks(cycle, state.resident, now);
    }
}

/// Pending work that is handed out is one less to hand out.
proof fn lemma_pending_takes(state: PublisherState, now: Mono)
    requires
        state.well_formed(),
        now.nanos + RETRY_BACKOFF_BASE <= u64::MAX,
    ensures
        ({
            let (work, after) = state.pending_turn(now);
            &&& after.well_formed()
            &&& after.resident == state.resident
            &&& after.cycle == state.cycle
            &&& after.next_renewal == state.next_renewal
            &&& after.topology_outage == state.topology_outage
            &&& after.publications_due(now) <= state.publications_due(now)
            &&& work is Some ==> after.publications_due(now) < state.publications_due(now)
        }),
{
    vstd::set_lib::lemma_set_subset_finite(state.resident.dom(), state.startup.dom());
    vstd::set_lib::lemma_set_subset_finite(state.resident.dom(), state.additions.dom());
    vstd::set_lib::lemma_set_subset_finite(state.resident.dom(), state.retries.dom());
    law_pending_hands_out_one_key(state.startup, state.resident);
    law_pending_hands_out_one_key(state.additions, state.resident);
    law_pending_hands_out_one_key(state.retries, state.resident);
    lemma_removed_is_smaller(state.startup);
    lemma_removed_is_smaller(state.additions);
    lemma_removed_is_smaller(state.retries);
}

/// Removing a key of a finite map makes it smaller.
proof fn lemma_removed_is_smaller(map: Map<ProviderKey, ProviderIdentity>)
    requires
        map.dom().finite(),
    ensures
        forall|key: ProviderKey|
            #![trigger map.remove(key)]
            map.contains_key(key) ==> map.remove(key).dom().len() < map.dom().len()
                && map.remove(key).dom().subset_of(map.dom()) && map.remove(key).dom().finite(),
        Map::<ProviderKey, ProviderIdentity>::empty().dom().len() == 0,
{
    assert forall|key: ProviderKey|
        #![trigger map.remove(key)]
        map.contains_key(key) implies map.remove(key).dom().len() < map.dom().len()
        && map.remove(key).dom().subset_of(map.dom()) && map.remove(key).dom().finite() by {
        assert(map.remove(key).dom() =~= map.dom().remove(key));
    }
    assert(Map::<ProviderKey, ProviderIdentity>::empty().dom() =~= Set::empty());
}

/// Without an outage, a call hands out one of the publications that are due.
proof fn lemma_call_takes(state: PublisherState, now: Mono)
    requires
        state.well_formed(),
        state.topology_outage is None,
        now.nanos + PROVIDER_RENEWAL_PERIOD <= u64::MAX,
    ensures
        ({
            let (work, after) = state.scheduled(now);
            &&& after.well_formed()
            &&& after.topology_outage is None
            &&& work is Some ==> after.publications_due(now) < state.publications_due(now)
        }),
{
    let begun = state.cycle_begun(now);
    assert(begun.publications_due(now) <= state.publications_due(now)) by {
        if state.resident == Map::<ProviderKey, ProviderIdentity>::empty() {
            assert(state.resident.dom() =~= Set::empty());
        }
    }
    lemma_renewal_takes(begun, now);
    let renewal = begun.renewal(now);
    let from = if begun.prefer_cycle {
        renewal.1
    } else {
        begun
    };
    lemma_pending_takes(from, now);
    let pending = from.pending_turn(now);
    lemma_renewal_takes(pending.1, now);
}

/// While the network answers, repeated calls at one instant hand out all that
/// waits: startup and incremental work comes to an end however many renewals are
/// due in between.
pub proof fn law_pending_work_drains(state: PublisherState, now: Mono) -> (count: nat)
    requires
        state.well_formed(),
        state.topology_outage is None,
        now.nanos + PROVIDER_RENEWAL_PERIOD <= u64::MAX,
    ensures
        count <= state.publications_due(now),
        ({
            let last = state.scheduled_repeatedly(now, count);
            &&& last.scheduled(now).0 is None
            &&& last.startup == Map::<ProviderKey, ProviderIdentity>::empty()
            &&& last.additions == Map::<ProviderKey, ProviderIdentity>::empty()
        }),
    decreases state.publications_due(now),
{
    if state.scheduled(now).0 is Some {
        lemma_call_takes(state, now);
        let further = law_pending_work_drains(state.scheduled(now).1, now);
        further + 1
    } else {
        law_idle_means_nothing_waits(state, now);
        0
    }
}

impl PublisherState {
    /// Whether only startup work of an unchanged resident set is left, while the
    /// network answers and no renewal is due.
    pub open spec fn sweeping(self, now: Mono) -> bool {
        &&& self.resident.dom().finite()
        &&& self.startup.submap_of(self.resident)
        &&& self.additions == Map::<ProviderKey, ProviderIdentity>::empty()
        &&& self.retries == Map::<ProviderKey, ProviderIdentity>::empty()
        &&& self.cycle is None
        &&& now.nanos < self.next_renewal.nanos
        &&& self.topology_outage is None
    }

    /// What call number `count` at `now` hands out, the first one being 0.
    pub open spec fn handed_out(self, now: Mono, count: nat) -> Option<ProviderPublication> {
        self.scheduled_repeatedly(now, count).scheduled(now).0
    }
}

/// One call of a sweep: the least key with its identity, or nothing.
proof fn lemma_sweep_step(state: PublisherState, keys: Seq<ProviderKey>, now: Mono)
    requires
        state.sweeping(now),
        lists_keys(keys, state.startup),
    ensures
        ({
            let (work, after) = state.scheduled(now);
            &&& after.sweeping(now)
            &&& after.resident == state.resident
            &&& keys.len() == 0 ==> work is None && after.startup == state.startup
            &&& keys.len() > 0 ==> {
                &&& work == Some(
                    ProviderPublication {
                        key: keys[0],
                        identity: state.resident[keys[0]],
                        lane: PublicationLane::Startup,
                    },
                )
                &&& after.startup == state.startup.remove(keys[0])
                &&& lists_keys(keys.drop_first(), after.startup)
            }
        }),
{
    let none = Map::<ProviderKey, ProviderIdentity>::empty();
    assert(state.startup.dom().subset_of(state.resident.dom())) by {
        assert forall|key: ProviderKey| state.startup.dom().contains(
            key,
        ) implies state.resident.dom().contains(key) by {
            assert(state.startup.contains_key(key));
        }
    }
    vstd::set_lib::lemma_set_subset_finite(state.resident.dom(), state.startup.dom());
    assert(none.dom() =~= Set::empty());
    law_pending_hands_out_one_key(state.startup, state.resident);
    law_pending_hands_out_one_key(none, state.resident);
    if keys.len() == 0 {
        assert forall|key: ProviderKey| !state.startup.contains_key(key) by {
            if state.startup.contains_key(key) {
                assert(keys.contains(key));
            }
        }
        assert(state.startup =~= none);
    } else {
        let first = keys[0];
        assert(state.startup.contains_key(first));
        assert(is_least(state.startup, first)) by {
            assert forall|other: ProviderKey| #[trigger] state.startup.contains_key(
                other,
            ) implies rank(first) <= rank(other) by {
                let i = choose|i: int| 0 <= i < keys.len() && keys[i] == other;
                if i > 0 {
                    assert(rank(keys[0]) < rank(keys[i]));
                }
            }
        }
        assert(state.startup != none);
        let taken = next_pending(state.startup, state.resident)->0;
        assert(is_least(state.startup, taken));
        lemma_rank_injective(taken, first);
        let rest = keys.drop_first();
        let left = state.startup.remove(first);
        assert forall|i: int| 0 <= i < rest.len() implies left.contains_key(#[trigger] rest[i]) by {
            assert(rest[i] == keys[i + 1]);
            assert(rank(keys[0]) < rank(keys[i + 1]));
        }
        assert forall|i: int, j: int| 0 <= i < j < rest.len() implies rank(#[trigger] rest[i])
            < rank(#[trigger] rest[j]) by {
            assert(rank(keys[i + 1]) < rank(keys[j + 1]));
        }
        assert forall|key: ProviderKey| #[trigger] left.contains_key(key) implies rest.contains(
            key,
        ) by {
            let i = choose|i: int| 0 <= i < keys.len() && keys[i] == key;
            assert(rest[i - 1] == key);
        }
    }
}

/// What a sweep hands out, call by call.
proof fn lemma_sweep(state: PublisherState, keys: Seq<ProviderKey>, now: Mono, count: nat)
    requires
        state.sweeping(now),
        lists_keys(keys, state.startup),
        count <= keys.len() + 1,
    ensures
        count < keys.len() ==> state.handed_out(now, count) == Some(
            ProviderPublication {
                key: keys[count as int],
                identity: state.resident[keys[count as int]],
                lane: PublicationLane::Startup,
            },
        ),
        count == keys.len() ==> state.handed_out(now, count) is None,
        state.scheduled_repeatedly(now, count).sweeping(now),
        state.scheduled_repeatedly(now, count).resident == state.resident,
        count >= keys.len() ==> state.scheduled_repeatedly(now, count).startup == Map::<
            ProviderKey,
            ProviderIdentity,
        >::empty(),
    decreases count,
{
    lemma_sweep_step(state, keys, now);
    if keys.len() == 0 {
        assert forall|key: ProviderKey| !state.startup.contains_key(key) by {
            if state.startup.contains_key(key) {
                assert(keys.contains(key));
            }
        }
        assert(state.startup =~= Map::<ProviderKey, ProviderIdentity>::empty());
    }
    if count > 0 {
        let after = state.scheduled(now).1;
        let rest = if keys.len() == 0 {
            keys
        } else {
            keys.drop_first()
        };
        lemma_sweep(after, rest, now, (count - 1) as nat);
        if count < keys.len() {
            assert(rest[count - 1] == keys[count as int]);
        }
    }
}

/// A fresh scheduler hands out its first resident set once: every key, in
/// ascending order, with its identity, as startup work, and then nothing.
/// Afterwards nothing is pending and no renewal is under way.
pub proof fn law_first_sweep_is_ordered_and_complete(
    set: Map<ProviderKey, ProviderIdentity>,
    keys: Seq<ProviderKey>,
    now: Mono,
)
    requires
        lists_keys(keys, set),
        set.dom().finite(),
        now.nanos < u64::MAX,
    ensures
        ({
            let fresh = PublisherState::initial(now).installed(set, now);
            let last = fresh.scheduled_repeatedly(now, keys.len() + 1);
            &&& forall|i: int|
                0 <= i < keys.len() ==> fresh.handed_out(now, i as nat) == Some(
                    ProviderPublication {
                        key: #[trigger] keys[i],
                        identity: set[keys[i]],
                        lane: PublicationLane::Startup,
                    },
                )
            &&& fresh.handed_out(now, keys.len()) is None
            &&& last.resident == set
            &&& last.resident.dom().len() == keys.len()
            &&& last.startup == Map::<ProviderKey, ProviderIdentity>::empty()
            &&& last.additions == Map::<ProviderKey, ProviderIdentity>::empty()
            &&& last.retries == Map::<ProviderKey, ProviderIdentity>::empty()
            &&& last.cycle is None
            &&& last.topology_outage is None
        }),
{
    let fresh = PublisherState::initial(now).installed(set, now);
    assert(fresh.sweeping(now));
    assert forall|i: int| 0 <= i < keys.len() implies fresh.handed_out(now, i as nat) == Some(
        ProviderPublication {
            key: #[trigger] keys[i],
            identity: set[keys[i]],
            lane: PublicationLane::Startup,
        },
    ) by {
        lemma_sweep(fresh, keys, now, i as nat);
    }
    lemma_sweep(fresh, keys, now, keys.len());
    lemma_sweep(fresh, keys, now, keys.len() + 1);
    assert(keys.no_duplicates()) by {
        assert forall|i: int, j: int|
            0 <= i < keys.len() && 0 <= j < keys.len() && i != j implies keys[i] != keys[j] by {
            if i < j {
                assert(rank(keys[i]) < rank(keys[j]));
            } else {
                assert(rank(keys[j]) < rank(keys[i]));
            }
        }
    }
    keys.unique_seq_to_set();
    assert(keys.to_set() =~= set.dom()) by {
        assert forall|key: ProviderKey| keys.to_set().contains(key) == set.dom().contains(key) by {
            if keys.contains(key) {
                let i = choose|i: int| 0 <= i < keys.len() && keys[i] == key;
                assert(set.contains_key(keys[i]));
            }
            if set.contains_key(key) {
                assert(keys.contains(key));
            }
        }
    }
}

} // verus!
