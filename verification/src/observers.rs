//! What replicated health reports say, as dashboards show it.

use vstd::prelude::*;

use crate::dashboard::{inspect_local, reports, LocalReport, LocalSnapshot};
use crate::encoded::lists_exactly;
use crate::health_record::{
    episode_says, law_tags_are_distinct, report_says, Component, Episode, HealthFact,
    HealthReport, Id, Metric, State, KIND_ALERT, KIND_CONDITION, KIND_RECOVERED, KIND_REPORT,
};
use crate::key_map::KeyMap;
use crate::keys::same;
use crate::numbers::{ascending_numbers, insert_number, lists_numbers};
use crate::provider::PeerId;

verus! {

/// A repeated numeric fact remains visible instead of being collapsed through
/// an arbitrary exactly-one rule.
#[derive(Debug, PartialEq, Eq)]
pub enum CountMetric {
    Absent,
    Value(u128),
    Ambiguous(Vec<u128>),
}

impl CountMetric {
    /// The value, if there is exactly one.
    pub fn value(&self) -> (value: Option<u128>)
        ensures
            value == match *self {
                CountMetric::Value(value) => Some(value),
                _ => None,
            },
    {
        match self {
            CountMetric::Value(value) => Some(*value),
            _ => None,
        }
    }

    /// Whether the metric tells that exactly `values` were reported.
    pub open spec fn tells(self, values: Set<u128>) -> bool {
        match self {
            CountMetric::Absent => values == Set::<u128>::empty(),
            CountMetric::Value(value) => values == Set::<u128>::empty().insert(value),
            CountMetric::Ambiguous(list) => list@.len() >= 2 && lists_numbers(list@, values),
        }
    }
}

/// Quantitative evidence carried by one replicated condition episode.
#[derive(Debug, PartialEq, Eq)]
pub struct ObservedEvidence {
    pub resident_blobs: CountMetric,
    pub local_records: CountMetric,
    pub local_authorizations: CountMetric,
    pub remote_records: CountMetric,
    pub remote_authorizations: CountMetric,
    pub publication_keys: CountMetric,
    pub publication_startup_pending: CountMetric,
    pub publication_incremental_pending: CountMetric,
    pub publication_retry_pending: CountMetric,
    pub publication_renewal_remaining: CountMetric,
    pub publication_in_flight: CountMetric,
    pub publication_attempts: CountMetric,
    pub publication_acknowledged: CountMetric,
    pub publication_rejected: CountMetric,
    pub publication_unavailable: CountMetric,
}

/// One condition from a selected observer report. Plural fields preserve the
/// open-world result if a union contains competing annotations.
#[derive(Debug, PartialEq, Eq)]
pub struct ObservedCondition {
    pub id: Id,
    pub components: Vec<Component>,
    pub states: Vec<State>,
    pub collections: Vec<[u8; 32]>,
    pub peers: Vec<PeerId>,
    pub alert: bool,
    pub recovered: bool,
    pub evidence: ObservedEvidence,
}

/// Whether a report is recent enough.
#[derive(Clone, Copy, Debug, PartialEq, Eq, Structural)]
pub enum Freshness {
    Fresh,
    Stale,
    Future,
}

/// Latest report selected for one observer node by creation time, then by
/// report identifier.
#[derive(Debug, PartialEq, Eq)]
pub struct ObserverReport {
    pub node: Id,
    pub report: Id,
    pub sessions: Vec<Id>,
    pub endpoints: Vec<PeerId>,
    pub created_ns: i128,
    pub age_seconds: Option<u64>,
    pub freshness: Freshness,
    pub conditions: Vec<ObservedCondition>,
}

/// One frozen value shared by terminal and graphical renderers.
#[derive(Debug, PartialEq, Eq)]
pub struct DashboardReport {
    pub local: LocalReport,
    pub observers: Vec<ObserverReport>,
}

fn fact_is(a: &HealthFact, b: &HealthFact) -> (equal: bool)
    ensures
        equal == (*a == *b),
{
    match (a, b) {
        (HealthFact::Tag { entity: e, tag: x }, HealthFact::Tag { entity: f, tag: y }) => *e == *f
            && *x == *y,
        (HealthFact::Node { entity: e, node: x }, HealthFact::Node { entity: f, node: y }) => *e
            == *f && *x == *y,
        (
            HealthFact::Endpoint { entity: e, endpoint: x },
            HealthFact::Endpoint { entity: f, endpoint: y },
        ) => *e == *f && same(x, y),
        (
            HealthFact::Session { entity: e, session: x },
            HealthFact::Session { entity: f, session: y },
        ) => *e == *f && *x == *y,
        (
            HealthFact::CreatedAt { entity: e, earliest: x, latest: u },
            HealthFact::CreatedAt { entity: f, earliest: y, latest: v },
        ) => *e == *f && *x == *y && *u == *v,
        (
            HealthFact::StartedAt { entity: e, earliest: x, latest: u },
            HealthFact::StartedAt { entity: f, earliest: y, latest: v },
        ) => *e == *f && *x == *y && *u == *v,
        (
            HealthFact::Condition { entity: e, condition: x },
            HealthFact::Condition { entity: f, condition: y },
        ) => *e == *f && *x == *y,
        (
            HealthFact::Collection { entity: e, collection: x },
            HealthFact::Collection { entity: f, collection: y },
        ) => *e == *f && same(x, y),
        (HealthFact::Peer { entity: e, peer: x }, HealthFact::Peer { entity: f, peer: y }) => *e
            == *f && same(x, y),
        (HealthFact::State { entity: e, state: x }, HealthFact::State { entity: f, state: y }) => *e
            == *f && *x == *y,
        (
            HealthFact::Count { entity: e, metric: x, value: u },
            HealthFact::Count { entity: f, metric: y, value: v },
        ) => *e == *f && *x == *y && *u == *v,
        _ => false,
    }
}

/// Whether the facts hold a fact.
fn says(facts: &[HealthFact], fact: &HealthFact) -> (found: bool)
    ensures
        found == facts@.contains(*fact),
{
    let mut i: usize = 0;
    while i < facts.len()
        invariant
            i <= facts@.len(),
            forall|j: int| 0 <= j < i ==> facts@[j] != *fact,
        decreases facts@.len() - i,
    {
        if fact_is(&facts[i], fact) {
            assert(facts@[i as int] == *fact);
            return true;
        }
        i = i + 1;
    }
    false
}

/// The values that the facts give for a quantity of an entity.
pub open spec fn counts(facts: Seq<HealthFact>, entity: Id, metric: Metric) -> Set<u128> {
    Set::new(|value: u128| facts.contains(HealthFact::Count { entity, metric, value }))
}

/// The metric that the facts give for a quantity of an entity.
pub fn count_metric(facts: &[HealthFact], entity: Id, metric: Metric) -> (count: CountMetric)
    ensures
        count.tells(counts(facts@, entity, metric)),
{
    let mut values: Vec<u128> = Vec::new();
    let mut i: usize = 0;
    while i < facts.len()
        invariant
            i <= facts@.len(),
            ascending_numbers(values@),
            forall|value: u128| #[trigger]
                values@.contains(value) <==> facts@.take(i as int).contains(
                    HealthFact::Count { entity, metric, value },
                ),
        decreases facts@.len() - i,
    {
        let ghost less = facts@.take(i as int);
        let ghost more = facts@.take(i + 1);
        proof {
            lemma_one_more(facts@, i as int);
        }
        match &facts[i] {
            HealthFact::Count { entity: e, metric: m, value } if *e == entity && *m == metric => {
                insert_number(&mut values, *value);
            },
            _ => {},
        }
        i = i + 1;
    }
    let ghost found = counts(facts@, entity, metric);
    assert(facts@.take(i as int) =~= facts@);
    if values.len() == 0 {
        proof {
            assert forall|value: u128| !found.contains(value) by {
                assert(!values@.contains(value));
            }
            assert(found =~= Set::empty());
        }
        CountMetric::Absent
    } else if values.len() == 1 {
        proof {
            assert forall|value: u128| found.contains(value) == (value == values@[0]) by {
                assert(values@.contains(values@[0]));
                assert(values@.contains(value) <==> found.contains(value));
            }
            assert(found =~= Set::<u128>::empty().insert(values@[0]));
        }
        CountMetric::Value(values[0])
    } else {
        CountMetric::Ambiguous(values)
    }
}

/// Reading one fact more.
proof fn lemma_one_more(facts: Seq<HealthFact>, count: int)
    requires
        0 <= count < facts.len(),
    ensures
        forall|fact: HealthFact| #[trigger]
            facts.take(count + 1).contains(fact) <==> facts.take(count).contains(fact) || fact
                == facts[count],
{
    let less = facts.take(count);
    let more = facts.take(count + 1);
    assert forall|fact: HealthFact| #[trigger] more.contains(fact) <==> less.contains(fact) || fact
        == facts[count] by {
        if more.contains(fact) {
            let i = choose|i: int| 0 <= i < more.len() && more[i] == fact;
            if i < count {
                assert(less[i] == fact);
            }
        }
        if less.contains(fact) {
            let i = choose|i: int| 0 <= i < less.len() && less[i] == fact;
            assert(more[i] == fact);
        }
        assert(more[count] == facts[count]);
    }
}

/// The collections that the facts give for an entity.
fn collections_of(facts: &[HealthFact], entity: Id) -> (list: Vec<[u8; 32]>)
    ensures
        lists_exactly(
            list@,
            Set::new(
                |collection: [u8; 32]|
                    facts@.contains(HealthFact::Collection { entity, collection }),
            ),
        ),
{
    let mut found: KeyMap<32, ()> = KeyMap::new();
    let mut i: usize = 0;
    while i < facts.len()
        invariant
            i <= facts@.len(),
            forall|collection: [u8; 32]| #[trigger]
                found@.contains_key(collection) <==> facts@.take(i as int).contains(
                    HealthFact::Collection { entity, collection },
                ),
        decreases facts@.len() - i,
    {
        proof {
            lemma_one_more(facts@, i as int);
        }
        match &facts[i] {
            HealthFact::Collection { entity: e, collection } if *e == entity => {
                found.insert(*collection, ());
            },
            _ => {},
        }
        i = i + 1;
    }
    assert(facts@.take(i as int) =~= facts@);
    let list = found.keys();
    proof {
        assert forall|key: [u8; 32]| #[trigger] list@.contains(key) <==> found@.contains_key(key) by {
            if list@.contains(key) {
                let i = choose|i: int| 0 <= i < list@.len() && list@[i] == key;
                assert(found@.contains_key(list@[i]));
            }
        }
    }
    list
}

/// The peers that the facts give for an entity.
fn peers_of(facts: &[HealthFact], entity: Id) -> (list: Vec<[u8; 32]>)
    ensures
        lists_exactly(
            list@,
            Set::new(
                |peer: [u8; 32]|
                    facts@.contains(HealthFact::Peer { entity, peer }),
            ),
        ),
{
    let mut found: KeyMap<32, ()> = KeyMap::new();
    let mut i: usize = 0;
    while i < facts.len()
        invariant
            i <= facts@.len(),
            forall|peer: [u8; 32]| #[trigger]
                found@.contains_key(peer) <==> facts@.take(i as int).contains(
                    HealthFact::Peer { entity, peer },
                ),
        decreases facts@.len() - i,
    {
        proof {
            lemma_one_more(facts@, i as int);
        }
        match &facts[i] {
            HealthFact::Peer { entity: e, peer } if *e == entity => {
                found.insert(*peer, ());
            },
            _ => {},
        }
        i = i + 1;
    }
    assert(facts@.take(i as int) =~= facts@);
    let list = found.keys();
    proof {
        assert forall|key: [u8; 32]| #[trigger] list@.contains(key) <==> found@.contains_key(key) by {
            if list@.contains(key) {
                let i = choose|i: int| 0 <= i < list@.len() && list@[i] == key;
                assert(found@.contains_key(list@[i]));
            }
        }
    }
    list
}

/// The endpoints that the facts give for an entity.
fn endpoints_of(facts: &[HealthFact], entity: Id) -> (list: Vec<[u8; 32]>)
    ensures
        lists_exactly(
            list@,
            Set::new(
                |endpoint: [u8; 32]|
                    facts@.contains(HealthFact::Endpoint { entity, endpoint }),
            ),
        ),
{
    let mut found: KeyMap<32, ()> = KeyMap::new();
    let mut i: usize = 0;
    while i < facts.len()
        invariant
            i <= facts@.len(),
            forall|endpoint: [u8; 32]| #[trigger]
                found@.contains_key(endpoint) <==> facts@.take(i as int).contains(
                    HealthFact::Endpoint { entity, endpoint },
                ),
        decreases facts@.len() - i,
    {
        proof {
            lemma_one_more(facts@, i as int);
        }
        match &facts[i] {
            HealthFact::Endpoint { entity: e, endpoint } if *e == entity => {
                found.insert(*endpoint, ());
            },
            _ => {},
        }
        i = i + 1;
    }
    assert(facts@.take(i as int) =~= facts@);
    let list = found.keys();
    proof {
        assert forall|key: [u8; 32]| #[trigger] list@.contains(key) <==> found@.contains_key(key) by {
            if list@.contains(key) {
                let i = choose|i: int| 0 <= i < list@.len() && list@[i] == key;
                assert(found@.contains_key(list@[i]));
            }
        }
    }
    list
}

/// The sessions that the facts give for an entity.
fn sessions_of(facts: &[HealthFact], entity: Id) -> (list: Vec<Id>)
    ensures
        lists_numbers(
            list@,
            Set::new(|session: Id| facts@.contains(HealthFact::Session { entity, session })),
        ),
{
    let mut list: Vec<Id> = Vec::new();
    let mut i: usize = 0;
    while i < facts.len()
        invariant
            i <= facts@.len(),
            ascending_numbers(list@),
            forall|session: Id| #[trigger]
                list@.contains(session) <==> facts@.take(i as int).contains(
                    HealthFact::Session { entity, session },
                ),
        decreases facts@.len() - i,
    {
        proof {
            lemma_one_more(facts@, i as int);
        }
        match &facts[i] {
            HealthFact::Session { entity: e, session } if *e == entity => {
                insert_number(&mut list, *session);
            },
            _ => {},
        }
        i = i + 1;
    }
    assert(facts@.take(i as int) =~= facts@);
    list
}

/// An item, if it is said.
pub open spec fn if_said<T>(said: bool, item: T) -> Seq<T> {
    if said {
        seq![item]
    } else {
        Seq::empty()
    }
}

/// Whether an entity is tagged.
pub open spec fn tagged(facts: Seq<HealthFact>, entity: Id, tag: Id) -> bool {
    facts.contains(HealthFact::Tag { entity, tag })
}

/// The components that an entity is tagged with.
pub open spec fn components_said(facts: Seq<HealthFact>, entity: Id) -> Seq<Component> {
    if_said(tagged(facts, entity, Component::Host.tagged()), Component::Host) + if_said(
        tagged(facts, entity, Component::Store.tagged()),
        Component::Store,
    ) + if_said(
        tagged(facts, entity, Component::Collection.tagged()),
        Component::Collection,
    ) + if_said(tagged(facts, entity, Component::Dht.tagged()), Component::Dht)
}

/// Whether a state is said of an entity.
pub open spec fn in_state(facts: Seq<HealthFact>, entity: Id, state: State) -> bool {
    facts.contains(HealthFact::State { entity, state: state.tagged() })
}

/// The states that are said of an entity.
pub open spec fn states_said(facts: Seq<HealthFact>, entity: Id) -> Seq<State> {
    if_said(in_state(facts, entity, State::Current), State::Current) + if_said(
        in_state(facts, entity, State::Progressing),
        State::Progressing,
    ) + if_said(in_state(facts, entity, State::Unknown), State::Unknown) + if_said(
        in_state(facts, entity, State::Stalled),
        State::Stalled,
    )
}

impl ObservedEvidence {
    /// Whether the evidence tells what the facts count of an entity.
    pub open spec fn tells(self, facts: Seq<HealthFact>, entity: Id) -> bool {
        &&& self.resident_blobs.tells(counts(facts, entity, Metric::ResidentBlobs))
        &&& self.local_records.tells(counts(facts, entity, Metric::LocalRecords))
        &&& self.local_authorizations.tells(counts(facts, entity, Metric::LocalAuthorizations))
        &&& self.remote_records.tells(counts(facts, entity, Metric::RemoteRecords))
        &&& self.remote_authorizations.tells(counts(facts, entity, Metric::RemoteAuthorizations))
        &&& self.publication_keys.tells(counts(facts, entity, Metric::PublicationKeys))
        &&& self.publication_startup_pending.tells(counts(facts, entity, Metric::PublicationStartupPending))
        &&& self.publication_incremental_pending.tells(counts(facts, entity, Metric::PublicationIncrementalPending))
        &&& self.publication_retry_pending.tells(counts(facts, entity, Metric::PublicationRetryPending))
        &&& self.publication_renewal_remaining.tells(counts(facts, entity, Metric::PublicationRenewalRemaining))
        &&& self.publication_in_flight.tells(counts(facts, entity, Metric::PublicationInFlight))
        &&& self.publication_attempts.tells(counts(facts, entity, Metric::PublicationAttempts))
        &&& self.publication_acknowledged.tells(counts(facts, entity, Metric::PublicationAcknowledged))
        &&& self.publication_rejected.tells(counts(facts, entity, Metric::PublicationRejected))
        &&& self.publication_unavailable.tells(counts(facts, entity, Metric::PublicationUnavailable))
    }
}

impl ObservedCondition {
    /// Whether the condition tells what the facts say of it.
    pub open spec fn tells(self, facts: Seq<HealthFact>) -> bool {
        &&& self.components@ == components_said(facts, self.id)
        &&& self.states@ == states_said(facts, self.id)
        &&& lists_exactly(
            self.collections@,
            Set::new(
                |collection: [u8; 32]|
                    facts.contains(HealthFact::Collection { entity: self.id, collection }),
            ),
        )
        &&& lists_exactly(
            self.peers@,
            Set::new(
                |peer: [u8; 32]| facts.contains(HealthFact::Peer { entity: self.id, peer }),
            ),
        )
        &&& self.alert == tagged(facts, self.id, KIND_ALERT)
        &&& self.recovered == tagged(facts, self.id, KIND_RECOVERED)
        &&& self.evidence.tells(facts, self.id)
    }
}

fn observe_components(facts: &[HealthFact], entity: Id) -> (components: Vec<Component>)
    ensures
        components@ == components_said(facts@, entity),
{
    let mut components: Vec<Component> = Vec::new();
    if says(facts, &HealthFact::Tag { entity, tag: Component::Host.tag() }) {
        components.push(Component::Host);
    }
    if says(facts, &HealthFact::Tag { entity, tag: Component::Store.tag() }) {
        components.push(Component::Store);
    }
    if says(facts, &HealthFact::Tag { entity, tag: Component::Collection.tag() }) {
        components.push(Component::Collection);
    }
    if says(facts, &HealthFact::Tag { entity, tag: Component::Dht.tag() }) {
        components.push(Component::Dht);
    }
    assert(components@ =~= components_said(facts@, entity));
    components
}

fn observe_states(facts: &[HealthFact], entity: Id) -> (states: Vec<State>)
    ensures
        states@ == states_said(facts@, entity),
{
    let mut states: Vec<State> = Vec::new();
    if says(facts, &HealthFact::State { entity, state: State::Current.tag() }) {
        states.push(State::Current);
    }
    if says(facts, &HealthFact::State { entity, state: State::Progressing.tag() }) {
        states.push(State::Progressing);
    }
    if says(facts, &HealthFact::State { entity, state: State::Unknown.tag() }) {
        states.push(State::Unknown);
    }
    if says(facts, &HealthFact::State { entity, state: State::Stalled.tag() }) {
        states.push(State::Stalled);
    }
    assert(states@ =~= states_said(facts@, entity));
    states
}

/// What the facts say of one condition.
pub fn observe_condition(facts: &[HealthFact], condition: Id) -> (seen: ObservedCondition)
    ensures
        seen.id == condition,
        seen.tells(facts@),
{
    ObservedCondition {
        id: condition,
        components: observe_components(facts, condition),
        states: observe_states(facts, condition),
        collections: collections_of(facts, condition),
        peers: peers_of(facts, condition),
        alert: says(facts, &HealthFact::Tag { entity: condition, tag: KIND_ALERT }),
        recovered: says(facts, &HealthFact::Tag { entity: condition, tag: KIND_RECOVERED }),
        evidence: ObservedEvidence {
            resident_blobs: count_metric(facts, condition, Metric::ResidentBlobs),
            local_records: count_metric(facts, condition, Metric::LocalRecords),
            local_authorizations: count_metric(facts, condition, Metric::LocalAuthorizations),
            remote_records: count_metric(facts, condition, Metric::RemoteRecords),
            remote_authorizations: count_metric(facts, condition, Metric::RemoteAuthorizations),
            publication_keys: count_metric(facts, condition, Metric::PublicationKeys),
            publication_startup_pending: count_metric(facts, condition, Metric::PublicationStartupPending),
            publication_incremental_pending: count_metric(facts, condition, Metric::PublicationIncrementalPending),
            publication_retry_pending: count_metric(facts, condition, Metric::PublicationRetryPending),
            publication_renewal_remaining: count_metric(facts, condition, Metric::PublicationRenewalRemaining),
            publication_in_flight: count_metric(facts, condition, Metric::PublicationInFlight),
            publication_attempts: count_metric(facts, condition, Metric::PublicationAttempts),
            publication_acknowledged: count_metric(facts, condition, Metric::PublicationAcknowledged),
            publication_rejected: count_metric(facts, condition, Metric::PublicationRejected),
            publication_unavailable: count_metric(facts, condition, Metric::PublicationUnavailable),
        },
    }
}

/// Whether `report` is a report of `node` made at `created_ns`.
pub open spec fn is_report(
    facts: Seq<HealthFact>,
    node: Id,
    report: Id,
    created_ns: i128,
) -> bool {
    &&& tagged(facts, report, KIND_REPORT)
    &&& facts.contains(HealthFact::Node { entity: report, node })
    &&& exists|earliest: i128| #[trigger]
        facts.contains(HealthFact::CreatedAt { entity: report, earliest, latest: created_ns })
}

/// Whether one report is at least as new as another, by creation time and then
/// by identifier.
pub open spec fn as_new(created_ns: i128, report: Id, other_ns: i128, other: Id) -> bool {
    created_ns > other_ns || (created_ns == other_ns && report >= other)
}

/// Whether `report`, made at `created_ns`, is the latest report of `node`.
pub open spec fn is_latest(
    facts: Seq<HealthFact>,
    node: Id,
    report: Id,
    created_ns: i128,
) -> bool {
    &&& is_report(facts, node, report, created_ns)
    &&& forall|other: Id, other_ns: i128| #[trigger]
        is_report(facts, node, other, other_ns) ==> as_new(created_ns, report, other_ns, other)
}

/// The conditions that a report names and that are its node's.
pub open spec fn conditions_of(facts: Seq<HealthFact>, node: Id, report: Id) -> Set<Id> {
    Set::new(
        |condition: Id|
            facts.contains(HealthFact::Condition { entity: report, condition }) && tagged(
                facts,
                condition,
                KIND_CONDITION,
            ) && facts.contains(HealthFact::Node { entity: condition, node }),
    )
}

/// How many whole seconds ago a report was made, if that can be told.
pub open spec fn age_of(created_ns: i128, now_ns: i128) -> Option<u64> {
    let age = now_ns - created_ns;
    if 0 <= age <= i128::MAX && age / 1_000_000_000 <= u64::MAX {
        Some((age / 1_000_000_000) as u64)
    } else {
        None
    }
}

/// Whether a report is from the future, recent or stale.
pub open spec fn freshness_of(created_ns: i128, now_ns: i128, max_age_seconds: u64) -> Freshness {
    if created_ns > now_ns {
        Freshness::Future
    } else if now_ns - created_ns < max_age_seconds * 1_000_000_000 {
        Freshness::Fresh
    } else {
        Freshness::Stale
    }
}

impl ObserverReport {
    /// Whether the report tells what the facts say of the latest report of its
    /// node.
    pub open spec fn tells(
        self,
        facts: Seq<HealthFact>,
        now_ns: i128,
        max_age_seconds: u64,
    ) -> bool {
        &&& is_latest(facts, self.node, self.report, self.created_ns)
        &&& lists_numbers(
            self.sessions@,
            Set::new(
                |session: Id|
                    facts.contains(HealthFact::Session { entity: self.report, session }),
            ),
        )
        &&& lists_exactly(
            self.endpoints@,
            Set::new(
                |endpoint: [u8; 32]|
                    facts.contains(HealthFact::Endpoint { entity: self.node, endpoint }),
            ),
        )
        &&& self.age_seconds == age_of(self.created_ns, now_ns)
        &&& self.freshness == freshness_of(self.created_ns, now_ns, max_age_seconds)
        &&& forall|i: int| 0 <= i < self.conditions@.len() ==> (#[trigger] self.conditions@[i]).tells(
            facts,
        )
        &&& lists_numbers(
            self.conditions@.map_values(|condition: ObservedCondition| condition.id),
            conditions_of(facts, self.node, self.report),
        )
    }
}

/// Whether the list has the latest report of every node, in the order of nodes.
pub open spec fn tells_all(
    list: Seq<ObserverReport>,
    facts: Seq<HealthFact>,
    now_ns: i128,
    max_age_seconds: u64,
) -> bool {
    &&& forall|i: int, j: int|
        0 <= i < j < list.len() ==> (#[trigger] list[i]).node < (#[trigger] list[j]).node
    &&& forall|i: int|
        0 <= i < list.len() ==> (#[trigger] list[i]).tells(facts, now_ns, max_age_seconds)
    &&& forall|node: Id, report: Id, created_ns: i128| #[trigger]
        is_report(facts, node, report, created_ns) ==> exists|i: int|
            0 <= i < list.len() && (#[trigger] list[i]).node == node
}

/// When a report was made, the latest time counting.
fn latest_creation(facts: &[HealthFact], report: Id) -> (created: Option<i128>)
    ensures
        match created {
            Some(created) => {
                &&& exists|earliest: i128| #[trigger]
                    facts@.contains(
                        HealthFact::CreatedAt { entity: report, earliest, latest: created },
                    )
                &&& forall|earliest: i128, latest: i128| #[trigger]
                    facts@.contains(HealthFact::CreatedAt { entity: report, earliest, latest })
                        ==> latest <= created
            },
            None => forall|earliest: i128, latest: i128|
                !(#[trigger] facts@.contains(
                    HealthFact::CreatedAt { entity: report, earliest, latest },
                )),
        },
{
    let mut created: Option<i128> = None;
    let mut i: usize = 0;
    while i < facts.len()
        invariant
            i <= facts@.len(),
            match created {
                Some(created) => {
                    &&& exists|earliest: i128| #[trigger]
                        facts@.take(i as int).contains(
                            HealthFact::CreatedAt { entity: report, earliest, latest: created },
                        )
                    &&& forall|earliest: i128, latest: i128| #[trigger]
                        facts@.take(i as int).contains(
                            HealthFact::CreatedAt { entity: report, earliest, latest },
                        ) ==> latest <= created
                },
                None => forall|earliest: i128, latest: i128|
                    !(#[trigger] facts@.take(i as int).contains(
                        HealthFact::CreatedAt { entity: report, earliest, latest },
                    )),
            },
        decreases facts@.len() - i,
    {
        let ghost before = created;
        let ghost less = facts@.take(i as int);
        let ghost more = facts@.take(i + 1);
        proof {
            lemma_one_more(facts@, i as int);
        }
        match &facts[i] {
            HealthFact::CreatedAt { entity, earliest, latest } if *entity == report => {
                let newer = match created {
                    Some(known) => *latest > known,
                    None => true,
                };
                if newer {
                    created = Some(*latest);
                    assert(more.contains(
                        HealthFact::CreatedAt {
                            entity: report,
                            earliest: *earliest,
                            latest: *latest,
                        },
                    ));
                }
            },
            _ => {},
        }
        proof {
            if created == before && created is Some {
                let e = choose|earliest: i128| #[trigger]
                    less.contains(
                        HealthFact::CreatedAt { entity: report, earliest, latest: created->0 },
                    );
                assert(more.contains(
                    HealthFact::CreatedAt { entity: report, earliest: e, latest: created->0 },
                ));
            }
        }
        i = i + 1;
    }
    assert(facts@.take(i as int) =~= facts@);
    created
}

/// The latest report of a node: when it was made, and its identifier.
fn latest_report(facts: &[HealthFact], node: Id) -> (latest: Option<(i128, Id)>)
    ensures
        match latest {
            Some((created_ns, report)) => is_latest(facts@, node, report, created_ns),
            None => forall|report: Id, created_ns: i128|
                !(#[trigger] is_report(facts@, node, report, created_ns)),
        },
{
    let mut latest: Option<(i128, Id)> = None;
    let mut i: usize = 0;
    while i < facts.len()
        invariant
            i <= facts@.len(),
            match latest {
                Some((created_ns, report)) => {
                    &&& is_report(facts@, node, report, created_ns)
                    &&& forall|other: Id, other_ns: i128| #[trigger]
                        is_report(facts@, node, other, other_ns) && facts@.take(i as int).contains(
                            HealthFact::Node { entity: other, node },
                        ) ==> as_new(created_ns, report, other_ns, other)
                },
                None => forall|other: Id, other_ns: i128| #[trigger]
                    is_report(facts@, node, other, other_ns) ==> !facts@.take(i as int).contains(
                        HealthFact::Node { entity: other, node },
                    ),
            },
        decreases facts@.len() - i,
    {
        proof {
            lemma_one_more(facts@, i as int);
        }
        match &facts[i] {
            HealthFact::Node { entity, node: of } if *of == node => {
                assert(facts@[i as int] == (HealthFact::Node { entity: *entity, node }));
                if says(facts, &HealthFact::Tag { entity: *entity, tag: KIND_REPORT }) {
                    if let Some(created_ns) = latest_creation(facts, *entity) {
                        assert(is_report(facts@, node, *entity, created_ns));
                        let newer = match latest {
                            Some((known_ns, known)) => created_ns > known_ns || (created_ns
                                == known_ns && *entity > known),
                            None => true,
                        };
                        if newer {
                            latest = Some((created_ns, *entity));
                        }
                    }
                }
            },
            _ => {},
        }
        i = i + 1;
    }
    assert(facts@.take(i as int) =~= facts@);
    latest
}

/// The nodes that some entity is of.
fn nodes_of(facts: &[HealthFact]) -> (nodes: Vec<Id>)
    ensures
        ascending_numbers(nodes@),
        forall|entity: Id, node: Id| #[trigger]
            facts@.contains(HealthFact::Node { entity, node }) ==> nodes@.contains(node),
{
    let mut nodes: Vec<Id> = Vec::new();
    let mut i: usize = 0;
    while i < facts.len()
        invariant
            i <= facts@.len(),
            ascending_numbers(nodes@),
            forall|entity: Id, node: Id| #[trigger]
                facts@.take(i as int).contains(HealthFact::Node { entity, node })
                    ==> nodes@.contains(node),
        decreases facts@.len() - i,
    {
        proof {
            lemma_one_more(facts@, i as int);
        }
        if let HealthFact::Node { entity: _, node } = &facts[i] {
            insert_number(&mut nodes, *node);
        }
        i = i + 1;
    }
    assert(facts@.take(i as int) =~= facts@);
    nodes
}

/// The conditions of a report, each as the facts describe it.
fn observe_conditions(facts: &[HealthFact], node: Id, report: Id) -> (list: Vec<ObservedCondition>)
    ensures
        forall|i: int| 0 <= i < list@.len() ==> (#[trigger] list@[i]).tells(facts@),
        lists_numbers(
            list@.map_values(|condition: ObservedCondition| condition.id),
            conditions_of(facts@, node, report),
        ),
{
    let mut ids: Vec<Id> = Vec::new();
    let mut i: usize = 0;
    while i < facts.len()
        invariant
            i <= facts@.len(),
            ascending_numbers(ids@),
            forall|condition: Id| #[trigger]
                ids@.contains(condition) <==> facts@.take(i as int).contains(
                    HealthFact::Condition { entity: report, condition },
                ) && tagged(facts@, condition, KIND_CONDITION) && facts@.contains(
                    HealthFact::Node { entity: condition, node },
                ),
        decreases facts@.len() - i,
    {
        proof {
            lemma_one_more(facts@, i as int);
        }
        match &facts[i] {
            HealthFact::Condition { entity, condition } if *entity == report => {
                if says(facts, &HealthFact::Tag { entity: *condition, tag: KIND_CONDITION })
                    && says(facts, &HealthFact::Node { entity: *condition, node }) {
                    insert_number(&mut ids, *condition);
                }
            },
            _ => {},
        }
        i = i + 1;
    }
    assert(facts@.take(i as int) =~= facts@);
    let mut list: Vec<ObservedCondition> = Vec::new();
    let mut j: usize = 0;
    while j < ids.len()
        invariant
            j <= ids@.len(),
            list@.len() == j,
            forall|k: int|
                0 <= k < j ==> (#[trigger] list@[k]).tells(facts@) && list@[k].id == ids@[k],
        decreases ids@.len() - j,
    {
        list.push(observe_condition(facts, ids[j]));
        j = j + 1;
    }
    assert(list@.map_values(|condition: ObservedCondition| condition.id) =~= ids@);
    list
}

fn report_age(created_ns: i128, now_ns: i128) -> (age: Option<u64>)
    ensures
        age == age_of(created_ns, now_ns),
{
    if created_ns > now_ns {
        return None;
    }
    if created_ns < 0 && now_ns > i128::MAX + created_ns {
        return None;
    }
    let age: i128 = now_ns - created_ns;
    let seconds: i128 = age / 1_000_000_000;
    if seconds <= u64::MAX as i128 {
        Some(seconds as u64)
    } else {
        None
    }
}

fn report_freshness(created_ns: i128, now_ns: i128, max_age_seconds: u64) -> (freshness: Freshness)
    ensures
        freshness == freshness_of(created_ns, now_ns, max_age_seconds),
{
    if created_ns > now_ns {
        return Freshness::Future;
    }
    let max_age_ns: i128 = max_age_seconds as i128 * 1_000_000_000;
    if created_ns < 0 && now_ns > i128::MAX + created_ns {
        return Freshness::Stale;
    }
    if now_ns - created_ns < max_age_ns {
        Freshness::Fresh
    } else {
        Freshness::Stale
    }
}

/// Project replicated health reports without maintaining an index or assuming
/// cardinality. This chooses the latest report per observer for presentation;
/// every fact within that report stays open-world.
pub fn observe_health(facts: &[HealthFact], now_ns: i128, max_age_seconds: u64) -> (list: Vec<
    ObserverReport,
>)
    ensures
        tells_all(list@, facts@, now_ns, max_age_seconds),
{
    let nodes = nodes_of(facts);
    let mut list: Vec<ObserverReport> = Vec::new();
    let mut i: usize = 0;
    while i < nodes.len()
        invariant
            i <= nodes@.len(),
            ascending_numbers(nodes@),
            forall|j: int, k: int|
                0 <= j < k < list@.len() ==> (#[trigger] list@[j]).node < (
                #[trigger] list@[k]).node,
            forall|j: int|
                0 <= j < list@.len() ==> (#[trigger] list@[j]).tells(
                    facts@,
                    now_ns,
                    max_age_seconds,
                ),
            forall|j: int|
                0 <= j < list@.len() && i < nodes@.len() ==> (#[trigger] list@[j]).node
                    < nodes@[i as int],
            forall|j: int, report: Id, created_ns: i128|
                0 <= j < i && #[trigger] is_report(facts@, nodes@[j], report, created_ns)
                    ==> exists|k: int|
                    0 <= k < list@.len() && (#[trigger] list@[k]).node == nodes@[j],
        decreases nodes@.len() - i,
    {
        let node = nodes[i];
        let ghost before = list@;
        proof {
            if i + 1 < nodes@.len() {
                assert(nodes@[i as int] < nodes@[i + 1]);
            }
        }
        if let Some((created_ns, report)) = latest_report(facts, node) {
            list.push(
                ObserverReport {
                    node,
                    report,
                    sessions: sessions_of(facts, report),
                    endpoints: endpoints_of(facts, node),
                    created_ns,
                    age_seconds: report_age(created_ns, now_ns),
                    freshness: report_freshness(created_ns, now_ns, max_age_seconds),
                    conditions: observe_conditions(facts, node, report),
                },
            );
            assert(list@[before.len() as int].node == node);
        }
        proof {
            assert forall|j: int, report: Id, created_ns: i128|
                0 <= j < i + 1 && #[trigger] is_report(
                    facts@,
                    nodes@[j],
                    report,
                    created_ns,
                ) implies exists|k: int|
                0 <= k < list@.len() && (#[trigger] list@[k]).node == nodes@[j] by {
                if j < i {
                    let k = choose|k: int|
                        0 <= k < before.len() && (#[trigger] before[k]).node == nodes@[j];
                    assert(list@[k].node == nodes@[j]);
                } else {
                    assert(list@[before.len() as int].node == nodes@[j]);
                }
            }
        }
        i = i + 1;
    }
    proof {
        assert forall|node: Id, report: Id, created_ns: i128| #[trigger]
            is_report(facts@, node, report, created_ns) implies exists|k: int|
            0 <= k < list@.len() && (#[trigger] list@[k]).node == node by {
            assert(nodes@.contains(node));
            let j = choose|j: int| 0 <= j < nodes@.len() && nodes@[j] == node;
            assert(is_report(facts@, nodes@[j], report, created_ns));
        }
    }
    list
}

/// Build the shared report after the caller has opened the health collection
/// through the same immutable snapshot. `None` means no readable report facts,
/// not an empty or healthy remote cluster.
pub fn inspect(
    snapshot: &LocalSnapshot,
    health_facts: Option<&[HealthFact]>,
    now_ns: i128,
    max_age_seconds: u64,
    sample_limit: usize,
) -> (report: DashboardReport)
    ensures
        reports(report.local, *snapshot, sample_limit as nat),
        match health_facts {
            Some(facts) => tells_all(report.observers@, facts@, now_ns, max_age_seconds),
            None => report.observers@ == Seq::<ObserverReport>::empty(),
        },
{
    let local = inspect_local(snapshot, sample_limit);
    let observers: Vec<ObserverReport> = match health_facts {
        Some(facts) => observe_health(facts, now_ns, max_age_seconds),
        None => Vec::new(),
    };
    DashboardReport { local, observers }
}

/// An observer sees of a condition episode exactly the quantities that were
/// recorded: what was not counted is absent, and zero is a value.
pub proof fn law_counts_roundtrip(
    report: HealthReport,
    id: Id,
    node: Id,
    episodes: Seq<Id>,
    facts: Seq<HealthFact>,
    index: int,
    metric: Metric,
    count: CountMetric,
)
    requires
        episodes.no_duplicates(),
        episodes.len() == report.conditions@.len(),
        forall|fact: HealthFact| #[trigger]
            facts.contains(fact) <==> report_says(report, id, node, episodes, fact),
        0 <= index < episodes.len(),
        count.tells(counts(facts, episodes[index], metric)),
    ensures
        match report.conditions@[index].evidence.counted(metric) {
            Some(value) => count == CountMetric::Value(value as u128),
            None => count == CountMetric::Absent,
        },
{
    let entity = episodes[index];
    let evidence = report.conditions@[index].evidence;
    let values = counts(facts, entity, metric);
    assert forall|value: u128| values.contains(value) <==> (evidence.counted(metric) is Some
        && value == evidence.counted(metric)->0) by {
        let fact = HealthFact::Count { entity, metric, value };
        assert(facts.contains(fact) <==> report_says(report, id, node, episodes, fact));
        if facts.contains(fact) {
            let i = choose|i: int|
                0 <= i < episodes.len() && episode_says(
                    #[trigger] report.conditions@[i],
                    episodes[i],
                    node,
                    report.session,
                    fact,
                );
            assert(episodes[i] == episodes[index]);
            assert(i == index);
        }
        if evidence.counted(metric) is Some && value == evidence.counted(metric)->0 {
            assert(episode_says(
                report.conditions@[index],
                episodes[index],
                node,
                report.session,
                fact,
            ));
        }
    }
    match evidence.counted(metric) {
        Some(value) => {
            let value = value as u128;
            assert(values.contains(value));
            match count {
                CountMetric::Absent => {},
                CountMetric::Value(other) => {
                    assert(values.contains(other));
                },
                CountMetric::Ambiguous(list) => {
                    assert(list@.contains(list@[0]));
                    assert(list@.contains(list@[1]));
                    assert(values.contains(list@[0]) && values.contains(list@[1]));
                    assert(list@[0] < list@[1]);
                },
            }
        },
        None => match count {
            CountMetric::Absent => {},
            CountMetric::Value(other) => {
                assert(values.contains(other));
            },
            CountMetric::Ambiguous(list) => {
                assert(list@.contains(list@[0]));
                assert(values.contains(list@[0]));
            },
        },
    }
}

/// Observing one recorded heartbeat shows that heartbeat whole: one report with
/// one condition for each of its episodes, each with its component, its state and
/// its tags.
pub proof fn law_heartbeat_is_observed_whole(
    report: HealthReport,
    id: Id,
    node: Id,
    episodes: Seq<Id>,
    facts: Seq<HealthFact>,
    list: Seq<ObserverReport>,
    now_ns: i128,
    max_age_seconds: u64,
)
    requires
        episodes.no_duplicates(),
        !episodes.contains(id),
        episodes.len() == report.conditions@.len(),
        forall|fact: HealthFact| #[trigger]
            facts.contains(fact) <==> report_says(report, id, node, episodes, fact),
        tells_all(list, facts, now_ns, max_age_seconds),
    ensures
        list.len() == 1,
        list[0].node == node,
        list[0].report == id,
        list[0].created_ns == report.created_ns,
        list[0].freshness == freshness_of(report.created_ns, now_ns, max_age_seconds),
        list[0].conditions@.len() == report.conditions@.len(),
        forall|j: int|
            0 <= j < list[0].conditions@.len() ==> episodes.contains(
                (#[trigger] list[0].conditions@[j]).id,
            ),
        forall|i: int, j: int|
            0 <= i < episodes.len() && 0 <= j < list[0].conditions@.len() && (
            #[trigger] list[0].conditions@[j]).id == #[trigger] episodes[i]
                ==> shows_episode(list[0].conditions@[j], report.conditions@[i]),
{
    law_tags_are_distinct(Component::Host, Component::Store, State::Current, State::Unknown);
    assert forall|other: Id, report_id: Id, created_ns: i128| #[trigger]
        is_report(facts, other, report_id, created_ns) <==> other == node && report_id == id
            && created_ns == report.created_ns by {
        if is_report(facts, other, report_id, created_ns) {
            let tag = HealthFact::Tag { entity: report_id, tag: KIND_REPORT };
            assert(facts.contains(tag));
            assert(report_says(report, id, node, episodes, tag));
            assert(facts.contains(HealthFact::Node { entity: report_id, node: other }));
            let earliest = choose|earliest: i128| #[trigger]
                facts.contains(
                    HealthFact::CreatedAt { entity: report_id, earliest, latest: created_ns },
                );
            assert(report_says(
                report,
                id,
                node,
                episodes,
                HealthFact::CreatedAt { entity: report_id, earliest, latest: created_ns },
            ));
            assert(report_says(
                report,
                id,
                node,
                episodes,
                HealthFact::Node { entity: report_id, node: other },
            ));
            if report_id != id {
                lemma_no_episode_is_a_report(report, node, episodes, tag);
            }
        }
        assert(facts.contains(HealthFact::Tag { entity: id, tag: KIND_REPORT }));
        assert(facts.contains(HealthFact::Node { entity: id, node }));
        assert(facts.contains(
            HealthFact::CreatedAt {
                entity: id,
                earliest: report.created_ns,
                latest: report.created_ns,
            },
        ));
    }
    assert(is_report(facts, node, id, report.created_ns));
    let k = choose|k: int| 0 <= k < list.len() && (#[trigger] list[k]).node == node;
    assert forall|j: int| 0 <= j < list.len() implies (#[trigger] list[j]).node == node by {
        assert(list[j].tells(facts, now_ns, max_age_seconds));
        assert(is_report(facts, list[j].node, list[j].report, list[j].created_ns));
    }
    if list.len() > 1 {
        assert(list[0].node < list[1].node);
    }
    let seen = list[0];
    assert(seen.tells(facts, now_ns, max_age_seconds));
    assert(is_report(facts, seen.node, seen.report, seen.created_ns));
    let ids = seen.conditions@.map_values(|condition: ObservedCondition| condition.id);
    let wanted = conditions_of(facts, node, id);
    assert forall|condition: Id| wanted.contains(condition) <==> episodes.contains(condition) by {
        let named = HealthFact::Condition { entity: id, condition };
        assert(facts.contains(named) <==> report_says(report, id, node, episodes, named));
        if episodes.contains(condition) {
            let i = choose|i: int| 0 <= i < episodes.len() && episodes[i] == condition;
            let tag = HealthFact::Tag { entity: condition, tag: KIND_CONDITION };
            let of = HealthFact::Node { entity: condition, node };
            assert(episode_says(report.conditions@[i], episodes[i], node, report.session, tag));
            assert(episode_says(report.conditions@[i], episodes[i], node, report.session, of));
            assert(facts.contains(tag) && facts.contains(of));
        }
    }
    assert(ids.no_duplicates());
    ids.unique_seq_to_set();
    episodes.unique_seq_to_set();
    assert(ids.to_set() =~= episodes.to_set()) by {
        assert forall|condition: Id| ids.to_set().contains(condition)
            == episodes.to_set().contains(condition) by {
            assert(ids.contains(condition) <==> wanted.contains(condition));
        }
    }
    assert forall|j: int| 0 <= j < seen.conditions@.len() implies episodes.contains(
        (#[trigger] seen.conditions@[j]).id,
    ) by {
        assert(ids[j] == seen.conditions@[j].id);
        assert(ids.contains(ids[j]));
    }
    assert forall|i: int, j: int|
        0 <= i < episodes.len() && 0 <= j < seen.conditions@.len() && (
        #[trigger] seen.conditions@[j]).id == #[trigger] episodes[i] implies shows_episode(
        seen.conditions@[j],
        report.conditions@[i],
    ) by {
        assert(seen.conditions@[j].tells(facts));
        lemma_episode_shown(report, id, node, episodes, facts, i, seen.conditions@[j]);
    }
}

/// Whether an observed condition shows an episode: its component, its state, what
/// it is about, and whether it is an alert or a recovery.
pub open spec fn shows_episode(seen: ObservedCondition, episode: Episode) -> bool {
    &&& seen.components@ == seq![episode.condition.component]
    &&& seen.states@ == seq![episode.condition.state]
    &&& forall|collection: [u8; 32]| #[trigger]
        seen.collections@.contains(collection) <==> episode.condition.collection == Some(collection)
    &&& forall|peer: PeerId| #[trigger]
        seen.peers@.contains(peer) <==> episode.condition.peer == Some(peer)
    &&& seen.alert == episode.condition.alert
    &&& seen.recovered == episode.recovered
}

/// No condition episode is tagged as a report.
proof fn lemma_no_episode_is_a_report(
    report: HealthReport,
    node: Id,
    episodes: Seq<Id>,
    fact: HealthFact,
)
    requires
        episodes.len() == report.conditions@.len(),
        fact matches HealthFact::Tag { tag, .. } && tag == KIND_REPORT,
    ensures
        forall|i: int|
            0 <= i < episodes.len() ==> !episode_says(
                #[trigger] report.conditions@[i],
                episodes[i],
                node,
                report.session,
                fact,
            ),
{
}

proof fn lemma_episode_shown(
    report: HealthReport,
    id: Id,
    node: Id,
    episodes: Seq<Id>,
    facts: Seq<HealthFact>,
    index: int,
    seen: ObservedCondition,
)
    requires
        episodes.no_duplicates(),
        !episodes.contains(id),
        episodes.len() == report.conditions@.len(),
        forall|fact: HealthFact| #[trigger]
            facts.contains(fact) <==> report_says(report, id, node, episodes, fact),
        0 <= index < episodes.len(),
        seen.id == episodes[index],
        seen.tells(facts),
    ensures
        shows_episode(seen, report.conditions@[index]),
{
    let episode = report.conditions@[index];
    let entity = episodes[index];
    assert(entity != id);
    assert forall|fact: HealthFact| entity_of(fact) == Some(entity) implies (#[trigger] facts.contains(
        fact,
    ) <==> episode_says(episode, entity, node, report.session, fact)) by {
        assert(facts.contains(fact) <==> report_says(report, id, node, episodes, fact));
        if facts.contains(fact) {
            let i = choose|i: int|
                0 <= i < episodes.len() && episode_says(
                    #[trigger] report.conditions@[i],
                    episodes[i],
                    node,
                    report.session,
                    fact,
                );
            assert(episodes[i] == episodes[index]);
        }
    }
    let component = episode.condition.component;
    let state = episode.condition.state;
    assert forall|other: Component| tagged(facts, entity, #[trigger] other.tagged()) <==> other
        == component by {
        let fact = HealthFact::Tag { entity, tag: other.tagged() };
        assert(entity_of(fact) == Some(entity));
        law_tags_are_distinct(other, component, state, state);
    }
    assert forall|other: State| in_state(facts, entity, other) <==> other == state by {
        let fact = HealthFact::State { entity, state: other.tagged() };
        assert(entity_of(fact) == Some(entity));
        law_tags_are_distinct(component, component, other, state);
    }
    assert(components_said(facts, entity) =~= seq![component]);
    assert(states_said(facts, entity) =~= seq![state]);
    assert(entity_of(HealthFact::Tag { entity, tag: KIND_ALERT }) == Some(entity));
    assert(entity_of(HealthFact::Tag { entity, tag: KIND_RECOVERED }) == Some(entity));
    assert forall|collection: [u8; 32]| #[trigger]
        seen.collections@.contains(collection) <==> episode.condition.collection == Some(
            collection,
        ) by {
        assert(entity_of(HealthFact::Collection { entity, collection }) == Some(entity));
    }
    assert forall|peer: PeerId| #[trigger]
        seen.peers@.contains(peer) <==> episode.condition.peer == Some(peer) by {
        assert(entity_of(HealthFact::Peer { entity, peer }) == Some(entity));
    }
}

/// The condition that a fact is about, for facts that are not the heartbeat's.
spec fn entity_of(fact: HealthFact) -> Option<Id> {
    match fact {
        HealthFact::Tag { entity, .. } => Some(entity),
        HealthFact::Collection { entity, .. } => Some(entity),
        HealthFact::Peer { entity, .. } => Some(entity),
        HealthFact::State { entity, .. } => Some(entity),
        _ => None,
    }
}

/// A node has one latest report.
pub proof fn law_latest_report_is_unique(
    facts: Seq<HealthFact>,
    node: Id,
    report: Id,
    created_ns: i128,
    other: Id,
    other_ns: i128,
)
    requires
        is_latest(facts, node, report, created_ns),
        is_latest(facts, node, other, other_ns),
    ensures
        report == other,
        created_ns == other_ns,
{
    assert(is_report(facts, node, report, created_ns));
    assert(is_report(facts, node, other, other_ns));
}

} // verus!
