use std::collections::BTreeMap;

use triblespace_net::clock::{Mono, SECOND};
use triblespace_net::directory::{
    ProviderDirectory, MAX_EXPIRED_PROVIDER_MEMBERSHIPS_PER_CALL, MAX_PROVIDERS_PER_KEY,
};
use triblespace_net::key_map::KeyMap;
use triblespace_net::keys::difference;
use triblespace_net::protocol::K;
use triblespace_net::provider::{
    blob_locator, blob_provider_token, collection_provider_key, collection_provider_token,
    provider_lease_token, PeerId, ProviderKey, ProviderObservation, ProviderSet,
    PROVIDER_LEASE_LIFETIME, PROVIDER_RENEWAL_PERIOD, RETRY_BACKOFF_BASE, RETRY_BACKOFF_CAP,
};
use triblespace_net::publisher::{
    ProviderPublication, ProviderPublisher, ProviderPutResult, PublicationEffect, PublicationLane,
    PublicationResult, MAX_PROVIDER_PUBLICATION_RETRIES,
};

const ALPHA: usize = 3;

fn mono_now() -> Mono {
    Mono {
        nanos: 1_000_000 * SECOND,
    }
}

fn deterministic_bytes(domain: &'static str, index: usize) -> [u8; 32] {
    let mut hasher = blake3::Hasher::new_derive_key(domain);
    hasher.update(&(index as u64).to_be_bytes());
    *hasher.finalize().as_bytes()
}

fn handle(name: &str) -> [u8; 32] {
    *blake3::hash(name.as_bytes()).as_bytes()
}

fn from_collections(collections: &[[u8; 32]], serves: bool) -> ProviderObservation {
    ProviderObservation::from_locators(collections, serves, &KeyMap::new())
}

struct PlacementBatchStats {
    entries: usize,
    frames: usize,
    max_entries_per_frame: usize,
}

fn placement_batch_stats(keys: Vec<ProviderKey>, peers: &[PeerId]) -> PlacementBatchStats {
    assert!(peers.len() >= K);
    let mut entries_by_peer = BTreeMap::<PeerId, usize>::new();
    let mut entries = 0;
    for key in keys {
        let mut ordered_peers = peers.to_vec();
        ordered_peers.sort_unstable_by_key(|peer| difference(&key, peer));
        for peer in ordered_peers.iter().take(K).copied() {
            *entries_by_peer.entry(peer).or_default() += 1;
            entries += 1;
        }
    }
    PlacementBatchStats {
        entries,
        frames: entries_by_peer.len(),
        max_entries_per_frame: entries_by_peer.values().copied().max().unwrap_or(0),
    }
}

#[test]
fn publication_set_contains_only_explicit_collection_participation() {
    let open = handle("open");
    let restricted = handle("restricted");
    let unauthorized = handle("unauthorized");
    let set = from_collections(&[open, restricted, unauthorized], true).into_set();
    for artifact in [open, restricted, unauthorized] {
        assert!(set.contains(&collection_provider_key(artifact)));
    }
    assert_eq!(set.len(), 3);
    assert_eq!(
        from_collections(&[open], false).into_set(),
        ProviderSet::default(),
        "a peer that serves no collections cannot publish admitted artifacts"
    );
}

#[test]
fn collection_participation_is_independent_of_write_authority() {
    let collection = handle("expiring");
    let during_set = from_collections(&[collection], true).into_set();
    let after_set = from_collections(&[collection], true).into_set();
    assert!(during_set.contains(&collection_provider_key(collection)));
    assert!(after_set.contains(&collection_provider_key(collection)));
}

#[test]
fn observation_reuses_resident_locators_and_adds_collection_keys() {
    let resident = *blake3::hash(&[44; 257]).as_bytes();
    let provider = [45; 32];
    let collection = handle("locator-projection");
    let mut locators: KeyMap<32, [u8; 32]> = KeyMap::new();
    locators.insert(blob_locator(resident), resident);
    let blob_key = blob_locator(resident);
    let collection_key = collection_provider_key(collection);

    let collection_disabled =
        ProviderObservation::from_locators(&[collection], false, &locators).into_set();
    assert_eq!(collection_disabled.identity(&blob_key), Some(resident));
    assert!(!collection_disabled.contains(&collection_key));

    let enabled = ProviderObservation::from_locators(&[collection], true, &locators).into_set();
    assert_eq!(enabled.identity(&blob_key), Some(resident));
    assert_eq!(enabled.identity(&collection_key), Some(collection));
    assert_eq!(locators.get(&blob_key), Some(resident));
    assert!(
        locators.get(&collection_key).is_none(),
        "insertion must not change the bearer index of the snapshot"
    );
    assert_eq!(
        provider_lease_token(resident, blob_key, provider),
        blob_provider_token(resident, provider)
    );
    assert_eq!(
        provider_lease_token(collection, collection_key, provider),
        collection_provider_token(collection, provider)
    );
    assert_ne!(
        provider_lease_token(resident, blob_key, provider),
        provider_lease_token(resident, blob_key, [46; 32])
    );
    assert_ne!(
        provider_lease_token(resident, blob_key, provider),
        provider_lease_token([47; 32], blob_key, provider)
    );
    assert_ne!(
        provider_lease_token(resident, blob_key, provider),
        provider_lease_token(resident, [48; 32], provider)
    );
}

#[test]
fn keys_and_tokens_are_derived_in_their_domains() {
    let collection = [3; 32];
    let provider = [4; 32];
    let key = blake3::derive_key("triblespace.net/collection-provider-key/v1", &collection);
    assert_eq!(collection_provider_key(collection), key);
    let mut input = b"triblespace.net/provider-token/v1\0".to_vec();
    input.extend_from_slice(&key);
    input.extend_from_slice(&provider);
    assert_eq!(
        collection_provider_token(collection, provider),
        *blake3::keyed_hash(&collection, &input).as_bytes()
    );
    assert_ne!(blob_locator(collection), key);
    assert_ne!(blob_locator(collection), collection);
}

#[test]
fn a_collection_wins_over_a_locator_at_the_same_key() {
    let collection = [9; 32];
    let key = collection_provider_key(collection);
    let mut locators: KeyMap<32, [u8; 32]> = KeyMap::new();
    locators.insert(key, [1; 32]);
    let set = ProviderObservation::from_locators(&[collection], true, &locators).into_set();
    assert_eq!(set.identity(&key), Some(collection));
    assert_eq!(set.len(), 1);
}

#[test]
fn directory_is_addressed_by_exact_provider_key_not_raw_artifact() {
    let artifact = [6; 32];
    let key = collection_provider_key(artifact);
    let provider = [7; 32];
    let now = mono_now();
    let mut directory = ProviderDirectory::default();
    assert!(directory.put(key, provider, [8; 32], now));

    assert!(directory.get(artifact, now).is_empty());
    assert_eq!(directory.get(key, now), vec![(provider, [8; 32])]);
}

#[test]
fn keys_sharing_the_first_byte_remain_separate_dht_records() {
    let mut left = [0; 32];
    left[0] = 9;
    left[31] = 1;
    let mut right = left;
    right[31] = 2;
    let now = mono_now();
    let mut directory = ProviderDirectory::default();
    assert!(directory.put(left, [1; 32], [11; 32], now));
    assert!(directory.put(right, [2; 32], [12; 32], now));

    assert_eq!(directory.get(left, now), vec![([1; 32], [11; 32])]);
    assert_eq!(directory.get(right, now), vec![([2; 32], [12; 32])]);
}

#[test]
fn renewal_at_capacity_preserves_membership_and_extends_lease() {
    let now = mono_now();
    let key = [1; 32];
    let provider = [2; 32];
    let mut directory = ProviderDirectory::with_limits(10 * SECOND, 1);
    assert!(directory.put(key, provider, [8; 32], now));
    assert!(!directory.put([3; 32], [4; 32], [9; 32], now));
    assert!(directory.put(key, provider, [8; 32], now.plus(5 * SECOND)));
    assert_eq!(
        directory.get(key, now.plus(14 * SECOND)),
        vec![(provider, [8; 32])]
    );
    assert!(directory.get(key, now.plus(15 * SECOND)).is_empty());
}

#[test]
fn exact_key_rejects_the_sixty_fifth_provider_but_renews_existing() {
    let now = mono_now();
    let key = [3; 32];
    let mut directory = ProviderDirectory::default();
    for byte in 1..=MAX_PROVIDERS_PER_KEY as u8 {
        assert!(directory.put(key, [byte; 32], [byte + 1; 32], now));
    }
    assert!(!directory.put(key, [65; 32], [66; 32], now));
    assert!(directory.put(key, [1; 32], [2; 32], now));
    assert_eq!(directory.get(key, now).len(), MAX_PROVIDERS_PER_KEY);
}

#[test]
fn expired_exact_key_capacity_is_reclaimed_despite_global_backlog() {
    let now = mono_now();
    let expired_at = now.plus(SECOND);
    let mut directory = ProviderDirectory::with_limits(SECOND, 1024);
    for index in 0_u16..128 {
        let mut key = [0; 32];
        key[..2].copy_from_slice(&index.to_be_bytes());
        assert!(directory.put(key, [1; 32], [2; 32], now));
    }
    let key = [0xFF; 32];
    for byte in 1..=MAX_PROVIDERS_PER_KEY as u8 {
        assert!(directory.put(key, [byte; 32], [byte; 32], now));
    }

    assert!(directory.put(key, [65; 32], [65; 32], expired_at));
    assert_eq!(directory.get(key, expired_at), vec![([65; 32], [65; 32])]);
}

#[test]
fn one_provider_can_publish_more_than_1024_exact_keys() {
    let now = mono_now();
    let provider = [7; 32];
    let mut directory = ProviderDirectory::default();
    for index in 0_u32..2048 {
        let mut key = [0; 32];
        key[..4].copy_from_slice(&index.to_be_bytes());
        assert!(directory.put(key, provider, [8; 32], now));
    }
    assert_eq!(directory.memberships.len(), 2048);
}

#[test]
fn a_full_directory_gives_up_its_farthest_membership_for_a_nearer_one() {
    let now = mono_now();
    let mut directory = ProviderDirectory::with_limits(10 * SECOND, 2);
    let local = directory.local_id;
    let mut near = local;
    near[31] ^= 1;
    let mut middle = local;
    middle[0] ^= 1;
    let mut far = local;
    far[0] ^= 0x80;
    assert!(directory.put(far, [1; 32], [1; 32], now));
    assert!(directory.put(middle, [2; 32], [2; 32], now));
    assert!(directory.put(near, [3; 32], [3; 32], now));
    assert!(directory.get(far, now).is_empty());
    assert_eq!(directory.get(middle, now), vec![([2; 32], [2; 32])]);
    assert_eq!(directory.get(near, now), vec![([3; 32], [3; 32])]);
    assert!(!directory.put(far, [1; 32], [1; 32], now));
    assert_eq!(directory.retained_counts(), (2, 2));
}

#[test]
fn fresh_arrival_gets_a_turn_before_the_startup_backlog_drains() {
    let now = mono_now();
    let mut resident = ProviderSet::default();
    for index in 0_u32..4096 {
        let mut key = [0; 32];
        key[..4].copy_from_slice(&index.to_be_bytes());
        resident.leases.insert(key, key);
    }
    let mut publisher = ProviderPublisher::new(now);
    publisher.install(resident.clone(), now);

    // The only incremental arrival sorts after every startup key.
    let fresh = [0xFF; 32];
    resident.leases.insert(fresh, fresh);
    publisher.install(resident, now);
    for _ in 0..2 {
        assert!(publisher.next(now).is_some());
    }
    assert!(
        !publisher.additions.contains(&fresh),
        "the incremental queue gets a turn within two non-retry pending turns"
    );
}

#[test]
fn sustained_incremental_arrivals_do_not_starve_startup_work() {
    let now = mono_now();
    let mut resident = ProviderSet::default();
    for byte in 0..32 {
        resident.leases.insert([byte; 32], [byte; 32]);
    }
    let mut publisher = ProviderPublisher::new(now);
    publisher.install(resident.clone(), now);

    for byte in 128..160 {
        let fresh = [byte; 32];
        resident.leases.insert(fresh, fresh);
        publisher.install(resident.clone(), now);
        let first = publisher.next(now).unwrap();
        let second = publisher.next(now).unwrap();
        assert_eq!(first.lane, PublicationLane::Startup);
        assert_eq!(second.lane, PublicationLane::Incremental);
        assert_eq!(second.key, fresh);
    }
    let progress = publisher.progress();
    assert_eq!(progress.resident, 64);
    assert_eq!(progress.startup_pending, 0);
    assert_eq!(progress.incremental_pending, 0);
    assert_eq!(progress.retry_pending, 0);
    assert_eq!(progress.renewal_remaining, 0);
    assert!(!progress.topology_paused);
}

#[test]
fn topology_failure_preserves_startup_and_incremental_pending_lanes() {
    let now = mono_now();
    let old = [0; 32];
    let fresh = [0xFF; 32];
    let mut resident = ProviderSet::default();
    resident.leases.insert(old, old);
    let mut publisher = ProviderPublisher::new(now);
    publisher.install(resident.clone(), now);
    let startup = publisher.next(now).unwrap();
    resident.leases.insert(fresh, fresh);
    publisher.install(resident, now);
    let incremental = publisher.next(now).unwrap();
    assert_eq!(startup.lane, PublicationLane::Startup);
    assert_eq!(incremental.lane, PublicationLane::Incremental);

    for work in [startup, incremental] {
        publisher.complete(work, PublicationResult::NoAuthenticatedRemoteReplica, now);
    }
    let progress = publisher.progress();
    assert_eq!(progress.startup_pending, 1);
    assert_eq!(progress.incremental_pending, 1);
    assert!(progress.topology_paused);
    assert!(publisher.startup.contains(&old));
    assert!(!publisher.startup.contains(&fresh));
    assert!(publisher.additions.contains(&fresh));
    assert!(!publisher.additions.contains(&old));

    // Failed bounded probes retain their lane too, and still alternate when the
    // topology gate next grants a pending turn.
    for expected in [PublicationLane::Startup, PublicationLane::Incremental] {
        let retry_at = publisher.topology_outage.as_ref().unwrap().retry_at;
        let probe = publisher.next(retry_at).unwrap();
        assert_eq!(probe.lane, expected);
        publisher.complete(
            probe,
            PublicationResult::NoAuthenticatedRemoteReplica,
            retry_at,
        );
    }
    assert_eq!(publisher.progress().startup_pending, 1);
    assert_eq!(publisher.progress().incremental_pending, 1);
}

#[test]
fn topology_failed_retry_and_renewal_return_as_historical_work() {
    let now = mono_now();
    let fresh = [0xFF; 32];
    for renewal in [false, true] {
        let mut publisher = ProviderPublisher::new(now);
        publisher.install(ProviderSet::default(), now);
        let mut resident = ProviderSet::default();
        resident.leases.insert(fresh, fresh);
        publisher.install(resident, now);
        let first = publisher.next(now).unwrap();
        assert_eq!(first.lane, PublicationLane::Incremental);
        let due = if renewal {
            publisher.complete(first, PublicationResult::Published, now);
            now.plus(PROVIDER_RENEWAL_PERIOD)
        } else {
            publisher.complete(first, PublicationResult::RemoteRejected, now);
            now.plus(RETRY_BACKOFF_BASE)
        };
        let work = publisher.next(due).unwrap();
        assert_eq!(work.lane, PublicationLane::Startup);
        publisher.complete(work, PublicationResult::NoAuthenticatedRemoteReplica, due);
        assert_eq!(publisher.progress().startup_pending, 1);
        assert_eq!(publisher.progress().incremental_pending, 0);
        assert_eq!(publisher.progress().retry_pending, 0);
    }
}

#[test]
fn snapshot_removal_prunes_both_pending_lanes() {
    let now = mono_now();
    let old = [0; 32];
    let fresh = [0xFF; 32];
    let mut resident = ProviderSet::default();
    resident.leases.insert(old, old);
    let mut publisher = ProviderPublisher::new(now);
    publisher.install(resident.clone(), now);
    resident.leases.insert(fresh, fresh);
    publisher.install(resident, now);
    assert_eq!(publisher.progress().startup_pending, 1);
    assert_eq!(publisher.progress().incremental_pending, 1);
    publisher.install(ProviderSet::default(), now);
    assert_eq!(publisher.progress().resident, 0);
    assert_eq!(publisher.progress().startup_pending, 0);
    assert_eq!(publisher.progress().incremental_pending, 0);
    assert!(publisher.next(now).is_none());
}

fn key_and_identity(work: ProviderPublication) -> ([u8; 32], [u8; 32]) {
    (work.key, work.identity)
}

#[test]
fn due_renewal_is_not_starved_by_sustained_additions() {
    let now = mono_now();
    let old_key = [0; 32];
    let old_token = [1; 32];
    let mut resident = ProviderSet::default();
    resident.leases.insert(old_key, old_token);
    let mut publisher = ProviderPublisher::new(now);
    publisher.install(resident.clone(), now);
    assert_eq!(
        publisher.next(now).map(key_and_identity),
        Some((old_key, old_token))
    );

    // Make the next due call service a new arrival first. The following call must
    // nevertheless advance the already-due renewal traversal.
    publisher.prefer_cycle = false;
    let due = now.plus(PROVIDER_RENEWAL_PERIOD);
    let first_new = [2; 32];
    resident.leases.insert(first_new, [3; 32]);
    publisher.install(resident.clone(), due);
    assert_eq!(
        publisher.next(due).map(key_and_identity),
        Some((first_new, [3; 32]))
    );

    let second_new = [4; 32];
    resident.leases.insert(second_new, [5; 32]);
    publisher.install(resident, due);
    assert_eq!(
        publisher.next(due).map(key_and_identity),
        Some((old_key, old_token))
    );
}

#[test]
fn failed_publication_waits_for_retry_backoff() {
    let now = mono_now();
    let key = [9; 32];
    let token = [10; 32];
    let mut resident = ProviderSet::default();
    resident.leases.insert(key, token);
    let mut publisher = ProviderPublisher::new(now);
    publisher.install(resident, now);
    assert_eq!(publisher.next(now).map(key_and_identity), Some((key, token)));
    assert!(publisher.retry(key, now));

    assert_eq!(publisher.next(now), None);
    assert_eq!(
        publisher
            .next(now.plus(RETRY_BACKOFF_BASE))
            .map(key_and_identity),
        Some((key, token))
    );
}

#[test]
fn find_node_responder_then_put_unavailable_preserves_the_large_pending_sweep() {
    let now = mono_now();
    let local = [0x11; 32];
    let remote = [0x22; 32];
    let unavailable = PublicationResult::from_put_results(
        local,
        &[
            (local, ProviderPutResult::Accepted),
            (remote, ProviderPutResult::Unavailable),
        ],
    );
    assert_eq!(unavailable, PublicationResult::NoAuthenticatedRemoteReplica);
    let key_count = MAX_PROVIDER_PUBLICATION_RETRIES as usize + 1025;
    let mut resident = ProviderSet::default();
    for index in 0..key_count {
        let key = deterministic_bytes("triblespace.net/isolated-provider-key/v1", index);
        resident.leases.insert(key, key);
    }
    let mut publisher = ProviderPublisher::new(now);
    publisher.install(resident, now);

    // These are the only attempts that can have left before the first no-route
    // outcome closes the global breaker.
    let initial = (0..ALPHA)
        .map(|_| publisher.next(now).expect("initial publication attempt"))
        .collect::<Vec<_>>();
    for (index, work) in initial.into_iter().enumerate() {
        let effect = publisher.complete(work, unavailable, now);
        assert_eq!(effect.topology_outage_started, index == 0);
    }

    assert_eq!(publisher.startup.leases.len(), key_count);
    assert!(publisher.additions.leases.is_empty());
    assert!(publisher.retries.leases.is_empty());
    assert!(publisher.next(now).is_none());

    let retry_at = publisher.topology_outage.as_ref().unwrap().retry_at;
    let probe = publisher.next(retry_at).expect("one bounded retry probe");
    assert!(publisher.next(retry_at).is_none());
    let effect = publisher.complete(probe, unavailable, retry_at);
    assert!(!effect.topology_outage_started);
    assert_eq!(publisher.startup.leases.len(), key_count);
    assert!(publisher.additions.leases.is_empty());
    assert!(publisher.retries.leases.is_empty());
    assert!(publisher.next(retry_at).is_none());
}

#[test]
fn authenticated_peer_appearance_releases_the_complete_pending_sweep() {
    let now = mono_now();
    let local = [0x11; 32];
    let remote = [0x22; 32];
    let unavailable =
        PublicationResult::from_put_results(local, &[(remote, ProviderPutResult::Unavailable)]);
    let published =
        PublicationResult::from_put_results(local, &[(remote, ProviderPutResult::Accepted)]);
    let key_count = MAX_PROVIDER_PUBLICATION_RETRIES as usize + 1025;
    let mut resident = ProviderSet::default();
    for index in 0..key_count {
        let key = deterministic_bytes("triblespace.net/resumed-provider-key/v1", index);
        resident.leases.insert(key, key);
    }
    let mut publisher = ProviderPublisher::new(now);
    publisher.install(resident, now);

    let first = publisher.next(now).unwrap();
    assert!(
        publisher
            .complete(first, unavailable, now)
            .topology_outage_started
    );
    let retry_at = publisher.topology_outage.as_ref().unwrap().retry_at;
    let probe = publisher.next(retry_at).expect("topology retry probe");
    let effect = publisher.complete(probe, published, retry_at);

    assert!(effect.topology_recovered);
    assert!(publisher.topology_outage.is_none());
    assert!(publisher.retries.leases.is_empty());
    let mut published_count = 1;
    while let Some(work) = publisher.next(retry_at) {
        let effect = publisher.complete(work, published, retry_at);
        assert!(!effect.topology_outage_started);
        published_count += 1;
    }
    assert_eq!(published_count, key_count);
    assert!(publisher.startup.leases.is_empty());
    assert!(publisher.additions.leases.is_empty());
    assert!(publisher.retries.leases.is_empty());
}

#[test]
fn authenticated_remote_rejection_uses_the_per_key_retry_set() {
    let now = mono_now();
    let local = [0x11; 32];
    let remote = [0x22; 32];
    let rejected = PublicationResult::from_put_results(
        local,
        &[(remote, ProviderPutResult::ExplicitlyRejected)],
    );
    assert_eq!(rejected, PublicationResult::RemoteRejected);
    let key = [0xA5; 32];
    let identity = [0x5A; 32];
    let mut resident = ProviderSet::default();
    resident.leases.insert(key, identity);
    let mut publisher = ProviderPublisher::new(now);
    publisher.install(resident, now);

    let work = publisher.next(now).unwrap();
    assert_eq!((work.key, work.identity), (key, identity));
    let effect = publisher.complete(work, rejected, now);
    assert!(!effect.topology_outage_started);
    assert!(!effect.retry_budget_full);
    assert!(publisher.topology_outage.is_none());
    assert_eq!(publisher.retries.leases.len(), 1);
    assert_eq!(publisher.next(now), None);
    assert_eq!(
        publisher
            .next(now.plus(RETRY_BACKOFF_BASE))
            .map(key_and_identity),
        Some((key, identity))
    );
}

#[test]
fn renewal_cycle_uses_an_eight_hour_anchor() {
    let now = mono_now();
    let mut resident = ProviderSet::default();
    for byte in 1..=4 {
        resident.leases.insert([byte; 32], [byte + 10; 32]);
    }
    let mut publisher = ProviderPublisher::new(now);
    publisher.install(resident, now);
    while publisher.next(now).is_some() {}

    let started = now.plus(PROVIDER_RENEWAL_PERIOD);
    let interval = PROVIDER_RENEWAL_PERIOD / 4;
    for offset in 0..4 {
        assert!(publisher.next(started.plus(interval * offset)).is_some());
    }
    assert!(publisher.cycle.is_none());
    assert_eq!(
        publisher.next_renewal,
        started.plus(PROVIDER_RENEWAL_PERIOD)
    );
    assert!(
        publisher
            .next(started.plus(PROVIDER_RENEWAL_PERIOD))
            .is_some(),
        "the next traversal begins at the prior cycle's anchored deadline"
    );
}

#[test]
fn first_sweep_renews_its_last_key_with_a_full_cycle_of_margin() {
    let now = mono_now();
    let mut resident = ProviderSet::default();
    for index in 0_u16..257 {
        let mut key = [0; 32];
        key[..2].copy_from_slice(&index.to_be_bytes());
        resident.leases.insert(key, key);
    }
    let mut publisher = ProviderPublisher::new(now);
    publisher.install(resident, now);
    while publisher.next(now).is_some() {}

    let mut emitted_at = now.plus(PROVIDER_RENEWAL_PERIOD);
    assert!(publisher.next(emitted_at).is_some());
    while let Some(next_due) = publisher.cycle.as_ref().map(|cycle| cycle.next_due) {
        emitted_at = next_due;
        assert!(publisher.next(emitted_at).is_some());
    }

    assert!(
        emitted_at.nanos
            <= now
                .plus(PROVIDER_LEASE_LIFETIME - PROVIDER_RENEWAL_PERIOD)
                .nanos,
        "the final initial lease needs one complete renewal-cycle budget before expiry"
    );
}

#[test]
fn expiry_reclamation_is_bounded_and_stale_entries_are_never_returned() {
    let now = mono_now();
    let key = [3; 32];
    let mut directory = ProviderDirectory::with_limits(SECOND, 100);
    for byte in 1..=64 {
        assert!(directory.put(key, [byte; 32], [byte + 1; 32], now));
    }
    let other = [4; 32];
    assert!(directory.put(other, [65; 32], [66; 32], now));

    assert!(directory.get(key, now.plus(SECOND)).is_empty());
    assert_eq!(directory.memberships.len(), 1);
    assert!(directory.get(other, now.plus(SECOND)).is_empty());
    assert!(directory.memberships.is_empty());
}

#[test]
fn stale_deadlines_spend_prune_budget_without_removing_a_renewal() {
    let now = mono_now();
    let expired = now.plus(10 * SECOND);
    let key = [255; 32];
    let provider = [255; 32];
    let mut directory = ProviderDirectory::with_limits(10 * SECOND, 1);
    assert!(directory.put(key, provider, [1; 32], now));
    assert!(directory.put(key, provider, [2; 32], now.plus(5 * SECOND)));

    // Deliberately reconstruct stale index rows: 64 absent memberships sort
    // before the old deadline of the still-live renewed membership.
    for byte in 0..MAX_EXPIRED_PROVIDER_MEMBERSHIPS_PER_CALL as u8 {
        directory.deadlines.insert(
            ProviderDirectory::deadline_key(expired, [byte; 32], [0; 32]),
            (),
        );
    }
    directory
        .deadlines
        .insert(ProviderDirectory::deadline_key(expired, key, provider), ());
    directory.prune_expired(expired);
    assert_eq!(directory.deadlines.len(), 2);
    assert_eq!(directory.retained_counts(), (1, 1));
    directory.prune_expired(expired);
    assert_eq!(directory.deadlines.len(), 1);
    assert_eq!(directory.get(key, expired), vec![(provider, [2; 32])]);
    assert!(directory.get(key, now.plus(15 * SECOND)).is_empty());
    assert_eq!(directory.retained_counts(), (0, 0));
    assert!(directory.deadlines.is_empty());
}

#[test]
fn prospective_provider_put_batching_preserves_every_placement() {
    let keys = (0..16)
        .map(|index| deterministic_bytes("triblespace.net/provider-scale-key/v1", index))
        .collect::<Vec<_>>();
    let peers = (0..64)
        .map(|index| deterministic_bytes("triblespace.net/provider-scale-peer/v1", index))
        .collect::<Vec<_>>();
    let stats = placement_batch_stats(keys, &peers);

    assert_eq!(stats.entries, 16 * K);
    assert!(stats.frames <= stats.entries);
    assert!(stats.max_entries_per_frame <= 16);
}

#[test]
fn pending_publication_descent_matches_ordered_selection_with_stale_entries() {
    let mut pending = ProviderSet::default();
    let mut resident = ProviderSet::default();
    for index in 0..1024 {
        let key = deterministic_bytes("provider-descent-test-key", index);
        pending.leases.insert(key, [0; 32]);
        if index % 3 == 0 {
            resident.leases.insert(key, [1; 32]);
        }
    }
    let expected = resident.leases.keys();
    let mut sorted = expected.clone();
    sorted.sort_unstable();
    assert_eq!(expected, sorted);
    let actual: Vec<_> = std::iter::from_fn(|| {
        ProviderPublisher::pop_pending(&mut pending, &resident, PublicationLane::Incremental)
    })
    .map(|work| {
        assert_eq!(work.identity, [1; 32]);
        assert_eq!(work.lane, PublicationLane::Incremental);
        work.key
    })
    .collect();
    assert_eq!(actual, expected);
    assert!(pending.leases.is_empty());
}

#[test]
fn put_answers_combine_into_one_publication_result() {
    let local = [1; 32];
    let remote = [2; 32];
    let other = [3; 32];
    assert_eq!(
        PublicationResult::from_put_results(local, &[]),
        PublicationResult::NoAuthenticatedRemoteReplica
    );
    assert_eq!(
        PublicationResult::from_put_results(
            local,
            &[
                (remote, ProviderPutResult::ExplicitlyRejected),
                (other, ProviderPutResult::Accepted),
            ],
        ),
        PublicationResult::Published
    );
    assert_eq!(
        PublicationResult::from_put_results(
            local,
            &[
                (other, ProviderPutResult::Accepted),
                (remote, ProviderPutResult::ExplicitlyRejected),
            ],
        ),
        PublicationResult::Published
    );
    assert_eq!(
        PublicationResult::from_put_results(local, &[(local, ProviderPutResult::Accepted)]),
        PublicationResult::NoAuthenticatedRemoteReplica
    );
}

#[test]
fn topology_backoff_doubles_up_to_its_cap() {
    for (attempts, seconds) in [(0, 1), (1, 1), (2, 2), (3, 4), (6, 32), (7, 60), (8, 60)] {
        assert_eq!(
            ProviderPublisher::topology_backoff(attempts),
            seconds * SECOND
        );
    }
    assert_eq!(
        ProviderPublisher::topology_backoff(u32::MAX),
        RETRY_BACKOFF_CAP
    );
}

#[test]
fn a_publication_that_is_no_longer_resident_is_forgotten() {
    let now = mono_now();
    let mut resident = ProviderSet::default();
    resident.leases.insert([1; 32], [2; 32]);
    let mut publisher = ProviderPublisher::new(now);
    publisher.install(resident, now);
    let work = publisher.next(now).unwrap();
    publisher.install(ProviderSet::default(), now);
    let effect = publisher.complete(work, PublicationResult::RemoteRejected, now);
    assert_eq!(
        effect,
        PublicationEffect {
            topology_outage_started: false,
            topology_recovered: false,
            retry_budget_full: false,
        }
    );
    assert_eq!(publisher.progress().retry_pending, 0);
    assert_eq!(publisher.next(now.plus(RETRY_BACKOFF_BASE)), None);
}

#[test]
fn the_retry_set_is_bounded() {
    let now = mono_now();
    let count = MAX_PROVIDER_PUBLICATION_RETRIES as usize + 1;
    let mut resident = ProviderSet::default();
    for index in 0..count {
        let key = deterministic_bytes("retry-bound-key", index);
        resident.leases.insert(key, key);
    }
    let keys = resident.leases.keys();
    let mut publisher = ProviderPublisher::new(now);
    publisher.install(resident, now);
    for key in &keys[..count - 1] {
        assert!(publisher.retry(*key, now));
    }
    assert!(!publisher.retry(keys[count - 1], now));
    assert!(publisher.retry(keys[0], now));
    assert_eq!(
        publisher.progress().retry_pending,
        MAX_PROVIDER_PUBLICATION_RETRIES
    );
}

#[test]
fn a_first_sweep_hands_out_every_key_once_in_order() {
    let now = mono_now();
    let mut resident = ProviderSet::default();
    for index in 0..100 {
        let key = deterministic_bytes("first-sweep-key", index);
        resident.leases.insert(key, [index as u8; 32]);
    }
    let mut publisher = ProviderPublisher::new(now);
    publisher.install(resident.clone(), now);
    for key in resident.leases.keys() {
        assert_eq!(
            publisher.next(now),
            Some(ProviderPublication {
                key,
                identity: resident.identity(&key).unwrap(),
                lane: PublicationLane::Startup,
            })
        );
    }
    assert_eq!(publisher.next(now), None);
    let progress = publisher.progress();
    assert_eq!(progress.resident, 100);
    assert_eq!(progress.startup_pending, 0);
    assert_eq!(progress.incremental_pending, 0);
    assert_eq!(progress.retry_pending, 0);
    assert_eq!(progress.renewal_remaining, 0);
}
