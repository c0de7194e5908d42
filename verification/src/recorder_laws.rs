//! What a heartbeat reports of the measurements that it was made from.

use vstd::prelude::*;

use crate::health_record::{
    episode_says, episodes_after, heartbeat_says, last_measured,
    law_episodes_follow_the_last_measurement, lists_episodes, subject_of, Condition, Episode,
    HealthFact, HealthReport, Id, Measurement, Metric, State, Subject, KIND_ALERT, KIND_CONDITION,
    KIND_RECOVERED, KIND_REPORT,
};
use crate::provider::PeerId;

verus! {

/// Whether two conditions are about the same: the same component, collection and
/// peer.
pub open spec fn about_the_same(a: Condition, b: Condition) -> bool {
    a.component == b.component && a.collection == b.collection && a.peer == b.peer
}

/// Whether the measurement at `at` is the last one of what it is about.
pub open spec fn is_last_of_its_subject(measurements: Seq<Measurement>, at: int) -> bool {
    &&& 0 <= at < measurements.len()
    &&& forall|later: int|
        at < later < measurements.len() ==> !about_the_same(
            (#[trigger] measurements[later]).condition,
            measurements[at].condition,
        )
}

proof fn lemma_last_measured(measurements: Seq<Measurement>, at: int)
    requires
        is_last_of_its_subject(measurements, at),
    ensures
        last_measured(measurements, subject_of(measurements[at].condition)) == Some(
            measurements[at],
        ),
    decreases measurements.len(),
{
    if at < measurements.len() - 1 {
        assert(!about_the_same(
            measurements[measurements.len() - 1].condition,
            measurements[at].condition,
        ));
        let front = measurements.drop_last();
        assert forall|later: int| at < later < front.len() implies !about_the_same(
            (#[trigger] front[later]).condition,
            front[at].condition,
        ) by {
            assert(front[later] == measurements[later]);
        }
        lemma_last_measured(front, at);
    }
}

proof fn lemma_measured_somewhere(measurements: Seq<Measurement>, subject: Subject)
    requires
        last_measured(measurements, subject) is Some,
    ensures
        exists|at: int| #[trigger]
            is_last_of_its_subject(measurements, at) && subject_of(measurements[at].condition)
                == subject && Some(measurements[at]) == last_measured(measurements, subject),
    decreases measurements.len(),
{
    let last = measurements.len() - 1;
    if subject_of(measurements.last().condition) == subject {
        assert(is_last_of_its_subject(measurements, last));
    } else {
        let front = measurements.drop_last();
        lemma_measured_somewhere(front, subject);
        let at = choose|at: int| #[trigger]
            is_last_of_its_subject(front, at) && subject_of(front[at].condition) == subject && Some(
                front[at],
            ) == last_measured(front, subject);
        assert forall|later: int| at < later < measurements.len() implies !about_the_same(
            (#[trigger] measurements[later]).condition,
            measurements[at].condition,
        ) by {
            if later < front.len() {
                assert(front[later] == measurements[later]);
            }
        }
        assert(is_last_of_its_subject(measurements, at));
    }
}

/// A report says of everything that was measured what the last measurement of it
/// said, once; and it says nothing of what was not measured.
pub proof fn law_report_says_what_was_measured(
    episodes: Map<Subject, Episode>,
    measurements: Seq<Measurement>,
    created_ns: i128,
    conditions: Seq<Episode>,
    at: int,
)
    requires
        lists_episodes(conditions, episodes_after(episodes, measurements, created_ns)),
    ensures
        is_last_of_its_subject(measurements, at) ==> exists|i: int|
            0 <= i < conditions.len() && (#[trigger] conditions[i]).condition
                == measurements[at].condition && conditions[i].evidence
                == measurements[at].evidence,
        0 <= at < conditions.len() ==> exists|i: int| #[trigger]
            is_last_of_its_subject(measurements, i) && measurements[i].condition
                == conditions[at].condition && measurements[i].evidence == conditions[at].evidence,
        forall|i: int, j: int|
            0 <= i < j < conditions.len() ==> !about_the_same(
                (#[trigger] conditions[i]).condition,
                (#[trigger] conditions[j]).condition,
            ),
{
    let after = episodes_after(episodes, measurements, created_ns);
    if is_last_of_its_subject(measurements, at) {
        let subject = subject_of(measurements[at].condition);
        lemma_last_measured(measurements, at);
        law_episodes_follow_the_last_measurement(episodes, measurements, created_ns, subject);
        assert(after.contains_key(subject));
        let i = choose|i: int| 0 <= i < conditions.len() && conditions[i] == after[subject];
        assert(subject_of(conditions[i].condition) == subject);
        assert(conditions[i].condition == measurements[at].condition);
    }
    if 0 <= at < conditions.len() {
        let subject = subject_of(conditions[at].condition);
        assert(after.contains_pair(subject, conditions[at]));
        law_episodes_follow_the_last_measurement(episodes, measurements, created_ns, subject);
        lemma_measured_somewhere(measurements, subject);
        let i = choose|i: int| #[trigger]
            is_last_of_its_subject(measurements, i) && subject_of(measurements[i].condition)
                == subject && Some(measurements[i]) == last_measured(measurements, subject);
        assert(measurements[i].condition == conditions[at].condition);
    }
}

/// What was measured for the first time, with nothing reported before, begins with
/// the report and is no recovery.
pub proof fn law_first_report_begins_everything(
    measurements: Seq<Measurement>,
    created_ns: i128,
    conditions: Seq<Episode>,
    at: int,
)
    requires
        lists_episodes(
            conditions,
            episodes_after(Map::<Subject, Episode>::empty(), measurements, created_ns),
        ),
        0 <= at < conditions.len(),
    ensures
        conditions[at].started_ns == created_ns,
        !conditions[at].recovered,
{
    let none = Map::<Subject, Episode>::empty();
    let after = episodes_after(none, measurements, created_ns);
    let subject = subject_of(conditions[at].condition);
    assert(after.contains_pair(subject, conditions[at]));
    law_episodes_follow_the_last_measurement(none, measurements, created_ns, subject);
}

/// What a report says of itself: that it is a report, of which node, in which
/// session and when it was made, which conditions it names, and at which endpoint
/// the node is. Nothing else is said of it.
pub proof fn law_a_heartbeat_says_who_and_when(
    report: HealthReport,
    id: Id,
    node: Id,
    episodes: Seq<Id>,
    other: Id,
)
    ensures
        heartbeat_says(report, id, node, episodes, HealthFact::Tag { entity: id, tag: other })
            <==> other == KIND_REPORT,
        heartbeat_says(report, id, node, episodes, HealthFact::Node { entity: id, node: other })
            <==> other == node,
        heartbeat_says(
            report,
            id,
            node,
            episodes,
            HealthFact::Session { entity: id, session: other },
        ) <==> other == report.session,
        heartbeat_says(
            report,
            id,
            node,
            episodes,
            HealthFact::Condition { entity: id, condition: other },
        ) <==> episodes.contains(other),
        forall|earliest: i128, latest: i128| #[trigger]
            heartbeat_says(
                report,
                id,
                node,
                episodes,
                HealthFact::CreatedAt { entity: id, earliest, latest },
            ) <==> earliest == report.created_ns && latest == report.created_ns,
        forall|endpoint: PeerId| #[trigger]
            heartbeat_says(
                report,
                id,
                node,
                episodes,
                HealthFact::Endpoint { entity: node, endpoint },
            ) <==> endpoint == report.endpoint,
{
}

/// What is said of a condition: that it is one, its component, whether it is an
/// alert or a recovery, its node and session, when it began, what it is about, its
/// state, and each count that was taken. Nothing is said of anything else.
pub proof fn law_a_condition_says_what_was_measured(
    episode: Episode,
    id: Id,
    node: Id,
    session: Id,
    other: Id,
)
    ensures
        episode_says(episode, id, node, session, HealthFact::Tag { entity: id, tag: other })
            <==> other == KIND_CONDITION || other == episode.condition.component.tagged() || (other
            == KIND_ALERT && episode.condition.alert) || (other == KIND_RECOVERED
            && episode.recovered),
        episode_says(episode, id, node, session, HealthFact::Node { entity: id, node: other })
            <==> other == node,
        episode_says(
            episode,
            id,
            node,
            session,
            HealthFact::Session { entity: id, session: other },
        ) <==> other == session,
        episode_says(episode, id, node, session, HealthFact::State { entity: id, state: other })
            <==> other == episode.condition.state.tagged(),
        forall|earliest: i128, latest: i128| #[trigger]
            episode_says(
                episode,
                id,
                node,
                session,
                HealthFact::StartedAt { entity: id, earliest, latest },
            ) <==> earliest == episode.started_ns && latest == episode.started_ns,
        forall|collection: [u8; 32]| #[trigger]
            episode_says(
                episode,
                id,
                node,
                session,
                HealthFact::Collection { entity: id, collection },
            ) <==> episode.condition.collection == Some(collection),
        forall|peer: PeerId| #[trigger]
            episode_says(
                episode,
                id,
                node,
                session,
                HealthFact::Peer { entity: id, peer },
            ) <==> episode.condition.peer == Some(peer),
        forall|metric: Metric, value: u128| #[trigger]
            episode_says(
                episode,
                id,
                node,
                session,
                HealthFact::Count { entity: id, metric, value },
            ) <==> episode.evidence.counted(metric) is Some && episode.evidence.counted(metric)->0
                == value,
        forall|fact: HealthFact| #[trigger]
            episode_says(episode, id, node, session, fact) ==> match fact {
                HealthFact::Tag { entity, .. } => entity == id,
                HealthFact::Node { entity, .. } => entity == id,
                HealthFact::Session { entity, .. } => entity == id,
                HealthFact::StartedAt { entity, .. } => entity == id,
                HealthFact::Collection { entity, .. } => entity == id,
                HealthFact::Peer { entity, .. } => entity == id,
                HealthFact::State { entity, .. } => entity == id,
                HealthFact::Count { entity, .. } => entity == id,
                _ => false,
            },
{
}

/// From one report to the next, a condition that is measured the same again keeps
/// its beginning, and is a recovery exactly if it was one. A condition that
/// changed, if only in a count, begins anew; it is a recovery exactly if what was
/// an alert is now current and no alert.
pub proof fn law_a_condition_lasts_while_nothing_changes(
    episodes: Map<Subject, Episode>,
    first: Seq<Episode>,
    measurements: Seq<Measurement>,
    created_ns: i128,
    second: Seq<Episode>,
    before: int,
    at: int,
)
    requires
        lists_episodes(first, episodes),
        lists_episodes(second, episodes_after(episodes, measurements, created_ns)),
        0 <= before < first.len(),
        0 <= at < second.len(),
        about_the_same(first[before].condition, second[at].condition),
    ensures
        first[before].condition == second[at].condition && first[before].evidence
            == second[at].evidence ==> second[at] == first[before],
        first[before].condition != second[at].condition || first[before].evidence
            != second[at].evidence ==> {
            &&& second[at].started_ns == created_ns
            &&& second[at].recovered <==> first[before].condition.alert
                && !second[at].condition.alert && second[at].condition.state == State::Current
        },
{
    let after = episodes_after(episodes, measurements, created_ns);
    let subject = subject_of(second[at].condition);
    assert(after.contains_pair(subject, second[at]));
    assert(episodes.contains_pair(subject_of(first[before].condition), first[before]));
    law_episodes_follow_the_last_measurement(episodes, measurements, created_ns, subject);
    lemma_measured_somewhere(measurements, subject);
}

} // verus!
