//! The broker written to a recovery image and set up from one.
use super::attach::next_generation;
use super::model::{
    empty_broker, guard_wills, reindexed, reserve_retained, retained_at, retained_bytes,
    retained_charge, retained_count, session_at, touch_session, update_retained, will_allowed,
    will_charge, will_count, will_in, BrokerView, GuardView, LinkView, RetainedView, WillView,
};
use super::revive::{
    are_filters_restorable, bytes_recorded, check_bytes_recorded, current, filters_restorable,
    is_still_permitted, is_well_recorded, lifetime_fate, make_current, revive, revived, room_for,
    session_fate, still_permitted, well_recorded, Fate,
};
use super::state::{
    cap_sum, guard_views, lemma_session_ok, link_views, will_views, MqttBroker, PendingWill,
    RetainedMessage,
};
use super::wills::retried;
use crate::error::Error;
use crate::identity::KeyView;
use crate::limits::Limits;
use crate::list::total;
use crate::message::{expired_spec, message_valid, valid_broker_message};
use crate::recovery::encode::payload_outcome;
use crate::recovery::image::{encode_mqtt_recovery, image};
use crate::recovery::snapshot::{
    recorded, recorded_views, topic_views, MqttRecoverySnapshot, RecordedView, SnapshotView,
    RECOVERY_VERSION, RECOVERY_VERSION_V1,
};
use crate::recovery::sort::{models, rank, sort, sort_by};
use crate::session::{
    auth_complete, inbound_views, message_charge, no_reservation, session_charge, sub_views,
    InboundEntry, InboundView, RetainedReservation, SessionView, StoredSession, Subscription,
};
use crate::text::{byte_len, levels, same_text, text_bytes};
use crate::topics::{
    device_publish_topic, publish_topic_spec, retained_owner_spec, retained_topic_owner_acl,
};
use crate::trie::{trie_insert, TrieView};
use crate::usage::total_usage;
use vstd::prelude::*;

verus! {

/// A received message without what only this process knows of it.
pub open spec fn unclaimed(e: InboundView) -> InboundView {
    InboundView { operation_id: None, reservation: no_reservation(), ..e }
}

pub open spec fn all_unclaimed(s: Seq<InboundView>) -> Seq<InboundView> {
    Seq::new(s.len(), |i: int| unclaimed(s[i]))
}

/// A session without its connection.
pub open spec fn snapshot_session(s: SessionView) -> RecordedView {
    RecordedView {
        session: SessionView {
            active_generation: None,
            inbound: all_unclaimed(s.inbound),
            ..s
        },
        offline_bytes: total(s.offline, message_charge()),
    }
}

pub open spec fn snapshot_sessions(s: Seq<SessionView>) -> Seq<RecordedView> {
    Seq::new(s.len(), |i: int| snapshot_session(s[i]))
}

pub open spec fn by_topic(s: Seq<RetainedView>) -> Seq<(Seq<char>, RetainedView)> {
    Seq::new(s.len(), |i: int| (s[i].message.topic, s[i]))
}

/// Everything of the broker that survives a restart. Wills that wait stand in the order in which
/// they fall due.
pub open spec fn snapshot_of(b: BrokerView) -> SnapshotView {
    SnapshotView {
        format_version: RECOVERY_VERSION,
        generation: b.generation,
        sessions: snapshot_sessions(b.sessions),
        retained: by_topic(b.retained),
        wills: b.pending_wills + sort_by(b.future_wills, rank::<PendingWill>()),
    }
}

/// A session with its parts in order.
pub open spec fn ordered_session(r: RecordedView) -> RecordedView {
    RecordedView {
        session: SessionView {
            subscriptions: sort_by(r.session.subscriptions, rank::<(String, Subscription)>()),
            inbound: sort_by(r.session.inbound, rank::<InboundEntry>()),
            ..r.session
        },
        ..r
    }
}

pub open spec fn ordered_sessions(s: Seq<RecordedView>) -> Seq<RecordedView> {
    Seq::new(s.len(), |i: int| ordered_session(s[i]))
}

/// A snapshot in the order in which it is written.
pub open spec fn ordered(snapshot: SnapshotView) -> SnapshotView {
    SnapshotView {
        sessions: sort_by(ordered_sessions(snapshot.sessions), rank::<StoredSession>()),
        retained: sort_by(snapshot.retained, rank::<(String, RetainedMessage)>()),
        ..snapshot
    }
}

/// The image of a broker. While a connection still holds a will that counts there is none.
pub open spec fn broker_image(b: BrokerView, limits: Limits) -> Result<Seq<u8>, Error> {
    if will_count(b, None) != b.pending_wills.len() + b.future_wills.len() {
        Err(Error::Conflict)
    } else {
        image(ordered(snapshot_of(b)), limits)
    }
}

/// Filters set up for a session.
pub open spec fn with_filters(
    t: TrieView,
    key: KeyView,
    subscriptions: Seq<(Seq<char>, Subscription)>,
) -> TrieView
    decreases subscriptions.len(),
{
    if subscriptions.len() == 0 {
        t
    } else {
        let last = subscriptions.last();
        trie_insert(
            with_filters(t, key, subscriptions.drop_last()),
            levels(last.0),
            key,
            last.1,
        )
    }
}

/// A session added with its filters, if its authorization is known well enough to deliver.
pub open spec fn admitted(b: BrokerView, limits: Limits, s: SessionView) -> BrokerView {
    reindexed(
        BrokerView {
            sessions: b.sessions.push(s),
            trie: if s.authorization matches Some(a) && auth_complete(a) {
                with_filters(b.trie, s.key, s.subscriptions)
            } else {
                b.trie
            },
            ..b
        },
        limits,
        s.key,
    )
}

/// A recorded session that outlives the restart, checked and added.
#[verifier::opaque]
pub open spec fn admit_session(b: BrokerView, limits: Limits, now: i64, r: RecordedView) -> Result<
    BrokerView,
    Error,
> {
    let fresh = r.session.incarnation == 0;
    let generation = if fresh {
        next_generation(b.generation)
    } else {
        b.generation
    };
    let incarnation = if fresh {
        generation
    } else {
        r.session.incarnation
    };
    let b1 = BrokerView { generation, ..b };
    let s = revived(r.session, incarnation);
    if !well_recorded(s, limits) || !still_permitted(s, limits) || session_at(b, s.key) is Some {
        Err(Error::Invalid)
    } else {
        match bytes_recorded(RecordedView { session: s, ..r }, limits) {
            Some(error) => Err(error),
            None => {
                let t = current(s, now);
                if session_charge(t) > usize::MAX || !room_for(b1, limits, t) {
                    Err(Error::Overloaded)
                } else if !filters_restorable(t, limits) {
                    Err(Error::Invalid)
                } else {
                    Ok(admitted(b1, limits, t))
                }
            },
        }
    }
}

pub open spec fn restore_session(
    b: BrokerView,
    limits: Limits,
    now: i64,
    version: u32,
    r: RecordedView,
) -> Result<BrokerView, Error> {
    match lifetime_fate(r.session, version, now) {
        Fate::Refuse => Err(Error::Invalid),
        Fate::Drop => Ok(b),
        Fate::Keep => admit_session(b, limits, now, r),
    }
}

/// The first recorded sessions, one after the other.
pub open spec fn restore_sessions(
    b: BrokerView,
    limits: Limits,
    now: i64,
    version: u32,
    sessions: Seq<RecordedView>,
) -> Result<BrokerView, Error>
    decreases sessions.len(),
{
    if sessions.len() == 0 {
        Ok(b)
    } else {
        match restore_sessions(b, limits, now, version, sessions.drop_last()) {
            Err(error) => Err(error),
            Ok(next) => restore_session(next, limits, now, version, sessions.last()),
        }
    }
}

pub open spec fn retained_restorable(limits: Limits, topic: Seq<char>, r: RetainedView) -> bool {
    &&& topic == r.message.topic
    &&& message_valid(r.message, limits)
    &&& retained_owner_spec(r.tenant, topic)
    &&& r.origin matches Some(origin) ==> {
        &&& origin.device.tenant == r.tenant
        &&& text_bytes(origin.client_id) <= limits.max_client_id_bytes
        &&& publish_topic_spec(origin.device, topic, None)
    }
    &&& r.message.retain
    &&& 0 < r.message.payload.len() <= limits.max_retained_message_bytes
}

/// A restored message retained. One of the same topic that it replaces stays in the totals.
pub open spec fn restored_message(b: BrokerView, r: RetainedView) -> BrokerView {
    BrokerView {
        shadowed: match retained_at(b, r.message.topic) {
            Some(i) => b.shadowed.push(b.retained[i]),
            None => b.shadowed,
        },
        ..update_retained(b, r.tenant, r.origin, r.message)
    }
}

#[verifier::opaque]
pub open spec fn restore_message(
    b: BrokerView,
    limits: Limits,
    now: i64,
    topic: Seq<char>,
    r: RetainedView,
) -> Result<BrokerView, Error> {
    let bytes = retained_charge(r.message, r.origin);
    if !retained_restorable(limits, topic, r) {
        Err(Error::Invalid)
    } else if expired_spec(r.message, now) {
        Ok(b)
    } else if retained_count(b, Some(r.tenant)) >= limits.max_retained_messages_per_tenant
        || retained_bytes(b, Some(r.tenant)) + bytes > limits.max_retained_bytes_per_tenant
        || retained_bytes(b, None) + bytes > usize::MAX {
        Err(Error::Overloaded)
    } else {
        Ok(restored_message(b, r))
    }
}

pub open spec fn restore_messages(
    b: BrokerView,
    limits: Limits,
    now: i64,
    retained: Seq<(Seq<char>, RetainedView)>,
) -> Result<BrokerView, Error>
    decreases retained.len(),
{
    if retained.len() == 0 {
        Ok(b)
    } else {
        match restore_messages(b, limits, now, retained.drop_last()) {
            Err(error) => Err(error),
            Ok(next) => restore_message(
                next,
                limits,
                now,
                retained.last().0,
                retained.last().1,
            ),
        }
    }
}

pub open spec fn will_restorable(limits: Limits, w: WillView) -> bool {
    &&& message_valid(w.message, limits)
    &&& w.message.payload.len() <= limits.max_will_payload_bytes
    &&& publish_topic_spec(w.owner, w.message.topic, None)
    &&& w.origin matches Some(key) ==> key.device == w.owner && text_bytes(key.client_id)
        <= limits.max_client_id_bytes
    &&& w.due_at_ms is Some <==> w.cancel_on_resume is Some
    &&& w.cancel_on_resume matches Some((key, incarnation)) ==> key.device == w.owner && incarnation
        != 0 && text_bytes(key.client_id) <= limits.max_client_id_bytes
}

/// A will among those that are tried or those that wait.
pub open spec fn with_will(b: BrokerView, w: WillView) -> BrokerView {
    if w.due_at_ms is Some {
        BrokerView { future_wills: b.future_wills.push(w), ..b }
    } else {
        BrokerView { pending_wills: b.pending_wills.push(w), ..b }
    }
}

#[verifier::opaque]
pub open spec fn restore_will(b: BrokerView, limits: Limits, now: i64, w: WillView) -> Result<
    BrokerView,
    Error,
> {
    if !will_restorable(limits, w) {
        Err(Error::Invalid)
    } else if expired_spec(w.message, now) {
        Ok(b)
    } else if !will_allowed(b, limits, w.owner.tenant, will_charge(w.message, w.origin)) {
        Err(Error::Overloaded)
    } else {
        match reserve_retained(b, limits, w.owner.tenant, w.origin, w.message) {
            Err(error) => Err(error),
            Ok(reservation) => Ok(
                with_will(b, WillView { reservation, counted: true, ..w }),
            ),
        }
    }
}

pub open spec fn restore_wills(b: BrokerView, limits: Limits, now: i64, wills: Seq<WillView>) -> Result<
    BrokerView,
    Error,
>
    decreases wills.len(),
{
    if wills.len() == 0 {
        Ok(b)
    } else {
        match restore_wills(b, limits, now, wills.drop_last()) {
            Err(error) => Err(error),
            Ok(next) => restore_will(next, limits, now, wills.last()),
        }
    }
}

/// A retained slot set aside for a received message.
#[verifier::opaque]
pub open spec fn reserve_entry(b: BrokerView, limits: Limits, i: int, k: int) -> Result<
    BrokerView,
    Error,
> {
    let s = b.sessions[i];
    let e = s.inbound[k];
    match reserve_retained(b, limits, s.key.device.tenant, Some(s.key), e.message) {
        Err(error) => Err(error),
        Ok(reservation) => Ok(
            touch_session(
                b,
                i,
                SessionView {
                    inbound: s.inbound.update(k, InboundView { reservation, ..e }),
                    ..s
                },
            ),
        ),
    }
}

/// Slots for the received messages of a session from the `k`th on.
pub open spec fn reserve_entries(b: BrokerView, limits: Limits, i: int, k: int) -> Result<
    BrokerView,
    Error,
>
    decreases b.sessions[i].inbound.len() - k,
{
    if k >= b.sessions[i].inbound.len() {
        Ok(b)
    } else {
        match reserve_entry(b, limits, i, k) {
            Err(error) => Err(error),
            Ok(next) => if next.sessions[i].inbound.len() == b.sessions[i].inbound.len() {
                reserve_entries(next, limits, i, k + 1)
            } else {
                Ok(next)
            },
        }
    }
}

/// Slots for the received messages of the sessions from the `i`th on.
pub open spec fn reserve_sessions(b: BrokerView, limits: Limits, i: int) -> Result<BrokerView, Error>
    decreases b.sessions.len() - i,
{
    if i >= b.sessions.len() {
        Ok(b)
    } else {
        match reserve_entries(b, limits, i, 0) {
            Err(error) => Err(error),
            Ok(next) => if next.sessions.len() == b.sessions.len() {
                reserve_sessions(next, limits, i + 1)
            } else {
                Ok(next)
            },
        }
    }
}

pub open spec fn totals_allowed(b: BrokerView, limits: Limits) -> bool {
    let all = total_usage(b.sessions);
    &&& all.subscriptions <= limits.max_subscriptions
    &&& all.offline_count <= limits.max_offline_messages
    &&& all.offline_bytes <= limits.max_offline_bytes
    &&& all.state_bytes <= limits.global_mqtt_session_bytes
    &&& retained_bytes(b, None) <= limits.max_retained_bytes
}

#[verifier::opaque]
pub open spec fn restored_parts(limits: Limits, now: i64, snapshot: SnapshotView) -> Result<
    BrokerView,
    Error,
> {
    let start = BrokerView { generation: snapshot.generation, ..empty_broker() };
    match restore_sessions(start, limits, now, snapshot.format_version, snapshot.sessions) {
        Err(error) => Err(error),
        Ok(b1) => match restore_messages(b1, limits, now, snapshot.retained) {
            Err(error) => Err(error),
            Ok(b2) => match restore_wills(b2, limits, now, snapshot.wills) {
                Err(error) => Err(error),
                Ok(b3) => reserve_sessions(b3, limits, 0),
            },
        },
    }
}

/// The broker that a snapshot describes, or why it is refused.
#[verifier::opaque]
pub open spec fn restored(limits: Limits, now: i64, snapshot: SnapshotView) -> Result<
    BrokerView,
    Error,
> {
    if snapshot.format_version < RECOVERY_VERSION_V1 || snapshot.format_version > RECOVERY_VERSION
        || snapshot.sessions.len() > limits.max_persistent_sessions || snapshot.retained.len()
        > limits.max_retained_messages {
        Err(Error::Configuration)
    } else {
        match restored_parts(limits, now, snapshot) {
            Err(error) => Err(error),
            Ok(b) => if totals_allowed(b, limits) {
                Ok(retried(b, limits, now))
            } else {
                Err(Error::Overloaded)
            },
        }
    }
}

/// A held will after the state around it was replaced: nothing is set aside for it any more.
pub open spec fn unbacked(g: GuardView) -> GuardView {
    GuardView { will: WillView { reservation: no_reservation(), counted: false, ..g.will }, ..g }
}

pub open spec fn all_unbacked(guards: Seq<GuardView>) -> Seq<GuardView> {
    Seq::new(guards.len(), |k: int| unbacked(guards[k]))
}

/// A connection after the state around it was replaced: it has no session, and still takes what
/// was queued for it.
pub open spec fn cut_off(l: LinkView) -> LinkView {
    LinkView { active: false, adrift: true, ..l }
}

pub open spec fn all_cut_off(links: Seq<LinkView>) -> Seq<LinkView> {
    Seq::new(links.len(), |j: int| cut_off(links[j]))
}

/// A state put in the place of another. What connections still hold of the old one stays theirs:
/// their wills, which are settled into the new state, and the frames that were queued for them.
pub open spec fn put_in_place(before: BrokerView, b: BrokerView) -> BrokerView {
    BrokerView {
        links: all_cut_off(before.links),
        guards: all_unbacked(before.guards),
        next_guard: before.next_guard,
        next_receiver: before.next_receiver,
        ..b
    }
}

/// The broker came to what was expected, or was refused for that reason.
pub open spec fn came_to(expected: Result<BrokerView, Error>, result: Result<(), Error>, after: BrokerView) -> bool {
    match (expected, result) {
        (Ok(b), Ok(())) => after == b,
        (Err(error), Err(got)) => got == error,
        _ => false,
    }
}

/// No will counts twice.
proof fn lemma_wills_number(wills: Seq<WillView>)
    ensures
        total(wills, will_in(None)) <= wills.len(),
    decreases wills.len(),
{
    if wills.len() > 0 {
        lemma_wills_number(wills.drop_last());
    }
}

/// Entries without what only this process knows of them.
fn unclaim(entries: &Vec<InboundEntry>) -> (result: Vec<InboundEntry>)
    ensures
        inbound_views(result@) == all_unclaimed(inbound_views(entries@)),
{
    let ghost all = all_unclaimed(inbound_views(entries@));
    let mut result: Vec<InboundEntry> = Vec::new();
    let mut at: usize = 0;
    while at < entries.len()
        invariant
            at <= entries.len(),
            all == all_unclaimed(inbound_views(entries@)),
            result@.len() == at,
            forall|i: int| 0 <= i < at ==> (#[trigger] result@[i])@ == all[i],
        decreases entries.len() - at,
    {
        result.push(
            InboundEntry {
                packet_id: entries[at].packet_id,
                state: entries[at].state.clone(),
                operation_id: None,
                reservation: RetainedReservation::default(),
            },
        );
        at = at + 1;
    }
    assert(inbound_views(result@) =~= all);
    result
}

fn clone_wills(wills: &Vec<PendingWill>) -> (result: Vec<PendingWill>)
    ensures
        will_views(result@) == will_views(wills@),
{
    let ghost all = will_views(wills@);
    let mut result: Vec<PendingWill> = Vec::new();
    let mut at: usize = 0;
    while at < wills.len()
        invariant
            at <= wills.len(),
            all == will_views(wills@),
            result@.len() == at,
            forall|i: int| 0 <= i < at ==> (#[trigger] result@[i])@ == all[i],
        decreases wills.len() - at,
    {
        result.push(wills[at].clone());
        at = at + 1;
    }
    assert(will_views(result@) =~= all);
    result
}

impl MqttRecoverySnapshot {
    /// Puts the snapshot into the order in which it is written.
    pub fn in_order(self) -> (result: MqttRecoverySnapshot)
        ensures
            result@ == ordered(self@),
    {
        let ghost before = self@;
        let mut left = self.sessions;
        let mut sessions: Vec<StoredSession> = Vec::new();
        let ghost all = before.sessions;
        let ghost mut done: int = 0;
        assert(recorded_views(left@) =~= all.skip(0));
        while left.len() > 0
            invariant
                0 <= done <= all.len(),
                left@.len() == all.len() - done,
                recorded_views(left@) == all.skip(done),
                sessions@.len() == done,
                forall|i: int| 0 <= i < done ==> recorded(#[trigger] sessions@[i]) == ordered_session(all[i]),
            decreases left.len(),
        {
            let ghost was = left@;
            let mut session = left.remove(0);
            let ghost r = recorded(session);
            proof {
                assert(r == recorded_views(was)[0]);
                assert(r == all[done]);
                assert(recorded_views(left@) =~= all.skip(done + 1)) by {
                    assert forall|i: int| 0 <= i < left@.len() implies (
                    #[trigger] recorded_views(left@)[i]) == all.skip(done + 1)[i] by {
                        assert(left@[i] == was[i + 1]);
                        assert(recorded_views(was)[i + 1] == all.skip(done)[i + 1]);
                    }
                }
            }
            let ghost subs = session.subscriptions@;
            let ghost inbound = session.inbound_qos2@;
            let mut parts: Vec<(String, Subscription)> = Vec::new();
            let mut entries: Vec<InboundEntry> = Vec::new();
            std::mem::swap(&mut parts, &mut session.subscriptions);
            std::mem::swap(&mut entries, &mut session.inbound_qos2);
            session.subscriptions = sort(parts);
            session.inbound_qos2 = sort(entries);
            proof {
                assert(models(subs) =~= sub_views(subs));
                assert(models(session.subscriptions@) =~= sub_views(session.subscriptions@));
                assert(models(inbound) =~= inbound_views(inbound));
                assert(models(session.inbound_qos2@) =~= inbound_views(session.inbound_qos2@));
                assert(recorded(session) =~= ordered_session(r));
            }
            sessions.push(session);
            proof {
                done = done + 1;
            }
        }
        let ghost middle = sessions@;
        let ghost topics = self.retained@;
        let result = MqttRecoverySnapshot {
            format_version: self.format_version,
            snapshot_generation: self.snapshot_generation,
            sessions: sort(sessions),
            retained: sort(self.retained),
            pending_wills: self.pending_wills,
        };
        proof {
            assert(models(middle) =~= ordered_sessions(all));
            assert(models(result.sessions@) =~= recorded_views(result.sessions@));
            assert(models(topics) =~= topic_views(topics));
            assert(models(result.retained@) =~= topic_views(result.retained@));
            assert(result@ =~= ordered(before));
        }
        result
    }
}

impl MqttBroker {
    /// Everything of the broker that survives a restart.
    pub fn snapshot(&self) -> (snapshot: MqttRecoverySnapshot)
        requires
            self.wf(),
        ensures
            snapshot@ == snapshot_of(self@),
    {
        let ghost b = self@;
        let mut sessions: Vec<StoredSession> = Vec::new();
        let mut at: usize = 0;
        while at < self.sessions.len()
            invariant
                at <= self.sessions.len(),
                self.wf(),
                b == self@,
                sessions@.len() == at,
                forall|i: int|
                    0 <= i < at ==> recorded(#[trigger] sessions@[i]) == snapshot_session(
                        b.sessions[i],
                    ),
            decreases self.sessions.len() - at,
        {
            proof {
                lemma_session_ok(self.sessions@, at as int);
                assert(b.sessions[at as int] == self.sessions@[at as int]@);
            }
            let mut session = self.sessions[at].clone();
            let ghost s = session@;
            assert(session.wf());
            session.active_generation = None;
            session.inbound_qos2 = unclaim(&session.inbound_qos2);
            assert(session@ =~= (SessionView {
                active_generation: None,
                inbound: all_unclaimed(s.inbound),
                ..s
            }));
            assert(recorded(session) =~= snapshot_session(s));
            sessions.push(session);
            at = at + 1;
        }
        let mut retained: Vec<(String, RetainedMessage)> = Vec::new();
        at = 0;
        while at < self.retained.len()
            invariant
                at <= self.retained.len(),
                b == self@,
                retained@.len() == at,
                forall|i: int|
                    0 <= i < at ==> (#[trigger] retained@[i]).0@ == b.retained[i].message.topic
                        && retained@[i].1@ == b.retained[i],
            decreases self.retained.len() - at,
        {
            assert(b.retained[at as int] == self.retained@[at as int]@);
            retained.push((self.retained[at].message.topic.clone(), self.retained[at].clone()));
            at = at + 1;
        }
        let mut wills = clone_wills(&self.pending_wills);
        let ghost pending = will_views(wills@);
        let waiting = clone_wills(&self.future_wills);
        let ghost model = will_views(waiting@);
        assert(models(waiting@) =~= model);
        let mut waiting = sort(waiting);
        assert(models(waiting@) =~= will_views(waiting@));
        let ghost tail = will_views(waiting@);
        let ghost front = wills@;
        let ghost back = waiting@;
        wills.append(&mut waiting);
        let snapshot = MqttRecoverySnapshot {
            format_version: RECOVERY_VERSION,
            snapshot_generation: self.generation,
            sessions,
            retained,
            pending_wills: wills,
        };
        proof {
            assert(snapshot@.sessions =~= snapshot_sessions(b.sessions));
            assert(snapshot@.retained =~= by_topic(b.retained));
            assert(wills@ == front + back);
            assert(will_views(wills@) =~= pending + tail);
            assert(snapshot@ =~= snapshot_of(b));
        }
        snapshot
    }

    /// Whether the wills that count are those that were taken over.
    fn all_taken_over(&self) -> (all: bool)
        requires
            self.wf(),
        ensures
            all == (will_count(self@, None) == self@.pending_wills.len()
                + self@.future_wills.len()),
    {
        proof {
            lemma_wills_number(self@.pending_wills);
            lemma_wills_number(self@.future_wills);
            lemma_wills_number(guard_wills(self@.guards));
            assert(self@.pending_wills.len() == self.pending_wills@.len());
            assert(self@.future_wills.len() == self.future_wills@.len());
            assert(self@.guards.len() == self.guards@.len());
        }
        let usage = self.will_responsibility(None);
        usage.0 == self.pending_wills.len() as u128 + self.future_wills.len() as u128
    }

    /// The bytes of a recovery image. While a connection still holds a will that counts there is
    /// none: every will has to be settled or taken over first.
    pub fn recovery_image(&self) -> (result: Result<Vec<u8>, Error>)
        requires
            self.wf(),
        ensures
            payload_outcome(result) == broker_image(self@, self.limits),
    {
        if !self.all_taken_over() {
            return Err(Error::Conflict);
        }
        let snapshot = self.snapshot().in_order();
        encode_mqtt_recovery(&snapshot, &self.limits)
    }

    fn insert_filters(&mut self, session: &StoredSession)
        requires
            old(self).wf(),
        ensures
            final(self).wf(),
            final(self).limits == old(self).limits,
            final(self).sessions == old(self).sessions,
            final(self)@ == (BrokerView {
                trie: with_filters(old(self)@.trie, session@.key, session@.subscriptions),
                ..old(self)@
            }),
    {
        let ghost subs = session@.subscriptions;
        let ghost key = session@.key;
        let ghost before = self@;
        let mut at: usize = 0;
        assert(subs.len() == session.subscriptions@.len());
        assert(self@ =~= (BrokerView {
            trie: with_filters(before.trie, key, subs.take(0)),
            ..before
        }));
        while at < session.subscriptions.len()
            invariant
                at <= subs.len() == session.subscriptions@.len(),
                subs == session@.subscriptions,
                key == session@.key,
                self.wf(),
                self.limits == old(self).limits,
                self.sessions == old(self).sessions,
                self@ == (BrokerView {
                    trie: with_filters(before.trie, key, subs.take(at as int)),
                    ..before
                }),
            decreases subs.len() - at,
        {
            proof {
                assert(subs.take(at as int + 1).drop_last() =~= subs.take(at as int));
                assert(subs.take(at as int + 1).last() == subs[at as int]);
                assert(subs[at as int] == (
                    session.subscriptions@[at as int].0@,
                    session.subscriptions@[at as int].1,
                ));
            }
            self.trie.insert(
                session.subscriptions[at].0.as_str(),
                &session.key,
                session.subscriptions[at].1,
            );
            at = at + 1;
            assert(self@ =~= (BrokerView {
                trie: with_filters(before.trie, key, subs.take(at as int)),
                ..before
            }));
        }
        assert(subs.take(subs.len() as int) =~= subs);
    }

    /// Adds a session that was found fit for use.
    fn admit_current(&mut self, session: StoredSession)
        requires
            old(self).wf(),
            session.wf(),
            old(self)@.sessions.len() < usize::MAX,
            session_at(old(self)@, session@.key) is None,
        ensures
            final(self).wf(),
            final(self).limits == old(self).limits,
            final(self)@ == admitted(old(self)@, old(self).limits, session@),
    {
        let complete = match &session.authorization {
            Some(authorization) => authorization.complete(),
            None => false,
        };
        let ghost before = self@;
        let ghost s = session@;
        if complete {
            self.insert_filters(&session);
        }
        let ghost middle = self@;
        assert(middle.sessions == before.sessions);
        self.append_session(session);
        assert(BrokerView { sessions: middle.sessions.push(s), ..middle } =~= (BrokerView {
            sessions: before.sessions.push(s),
            trie: middle.trie,
            ..before
        }));
    }

    fn admit_recorded(&mut self, session: StoredSession, now: i64) -> (result: Result<(), Error>)
        requires
            old(self).wf(),
            old(self)@.sessions.len() < usize::MAX,
        ensures
            final(self).wf(),
            final(self).limits == old(self).limits,
            came_to(
                admit_session(old(self)@, old(self).limits, now, recorded(session)),
                result,
                final(self)@,
            ),
    {
        proof {
            reveal(admit_session);
        }
        let ghost b = self@;
        let ghost r = recorded(session);
        let mut incarnation: u64 = session.incarnation;
        if incarnation == 0 {
            self.generation = if self.generation == u64::MAX {
                1
            } else {
                self.generation + 1
            };
            incarnation = self.generation;
        }
        let ghost b1 = self@;
        assert(b1 =~= (BrokerView { generation: self.generation, ..b }));
        assert(b1.sessions == b.sessions);
        let session = revive(session, incarnation);
        let ghost s = session@;
        assert(recorded(session) =~= (RecordedView { session: s, ..r }));
        if !is_well_recorded(&session, &self.limits) || !is_still_permitted(
            &session,
            &self.limits,
        ) || self.find_session(&session.key).is_some() {
            return Err(Error::Invalid);
        }
        if let Some(error) = check_bytes_recorded(&session, &self.limits) {
            return Err(error);
        }
        let session = match make_current(session, now) {
            Some(session) => session,
            None => return Err(Error::Overloaded),
        };
        if !self.has_room_for(&session) {
            return Err(Error::Overloaded);
        }
        if !are_filters_restorable(&session, &self.limits) {
            return Err(Error::Invalid);
        }
        self.admit_current(session);
        Ok(())
    }

    fn restore_sessions(&mut self, sessions: Vec<StoredSession>, version: u32, now: i64) -> (result:
        Result<(), Error>)
        requires
            old(self).wf(),
            old(self)@.sessions.len() == 0,
        ensures
            final(self).wf(),
            final(self).limits == old(self).limits,
            came_to(
                restore_sessions(
                    old(self)@,
                    old(self).limits,
                    now,
                    version,
                    recorded_views(sessions@),
                ),
                result,
                final(self)@,
            ),
    {
        let ghost all = recorded_views(sessions@);
        let ghost start = self@;
        let ghost limits = self.limits;
        let number: usize = sessions.len();
        let mut left = sessions;
        let mut done: usize = 0;
        assert(recorded_views(left@) =~= all.skip(0));
        assert(all.take(0).len() == 0);
        while left.len() > 0
            invariant
                self.wf(),
                self.limits == limits,
                limits == old(self).limits,
                all.len() == number,
                done <= number,
                left@.len() == number - done,
                recorded_views(left@) == all.skip(done as int),
                self@.sessions.len() <= done,
                all == recorded_views(sessions@),
                start == old(self)@,
                restore_sessions(start, limits, now, version, all.take(done as int)) == Ok::<
                    BrokerView,
                    Error,
                >(self@),
            decreases left.len(),
        {
            let ghost was = left@;
            let ghost before = self@;
            let session = left.remove(0);
            let ghost r = recorded(session);
            proof {
                assert(r == recorded_views(was)[0]);
                assert(r == all[done as int]);
                assert(recorded_views(left@) =~= all.skip(done + 1)) by {
                    assert forall|i: int| 0 <= i < left@.len() implies (
                    #[trigger] recorded_views(left@)[i]) == all.skip(done + 1)[i] by {
                        assert(left@[i] == was[i + 1]);
                        assert(recorded_views(was)[i + 1] == all.skip(done as int)[i + 1]);
                    }
                }
                assert(all.take(done + 1).drop_last() =~= all.take(done as int));
                assert(all.take(done + 1).last() == r);
            }
            let outcome = match session_fate(&session, version, now) {
                Fate::Refuse => Err(Error::Invalid),
                Fate::Drop => Ok(()),
                Fate::Keep => self.admit_recorded(session, now),
            };
            if let Err(error) = outcome {
                proof {
                    lemma_sessions_refused(start, limits, now, version, all, done + 1);
                }
                return Err(error);
            }
            proof {
                reveal(admit_session);
            }
            done = done + 1;
        }
        assert(all.take(all.len() as int) =~= all);
        Ok(())
    }

    fn restore_retained(&mut self, topic: &str, retained: &RetainedMessage, now: i64) -> (result: Result<
        (),
        Error,
    >)
        requires
            old(self).wf(),
        ensures
            final(self).wf(),
            final(self).limits == old(self).limits,
            came_to(
                restore_message(old(self)@, old(self).limits, now, topic@, retained@),
                result,
                final(self)@,
            ),
    {
        proof {
            reveal(restore_message);
        }
        let message = &retained.message;
        let origin_ok = match &retained.origin {
            Some(origin) => origin.device.tenant_id.same(&retained.tenant_id) && byte_len(
                origin.client_id.as_str(),
            ) <= self.limits.max_client_id_bytes && device_publish_topic(
                &origin.device,
                topic,
                None,
            ),
            None => true,
        };
        if !same_text(topic, message.topic.as_str()) || !valid_broker_message(message, &self.limits)
            || !retained_topic_owner_acl(&retained.tenant_id, topic) || !origin_ok || !message.retain
            || message.payload.len() == 0 || message.payload.len()
            > self.limits.max_retained_message_bytes {
            return Err(Error::Invalid);
        }
        if message.expired(now) {
            return Ok(());
        }
        let own = self.retained_totals(Some(&retained.tenant_id));
        let all = self.retained_totals(None);
        let bytes: usize = retained.bytes();
        if own.0 >= self.limits.max_retained_messages_per_tenant as u128 || cap_sum(
            own.1,
            bytes as u128,
        ) > self.limits.max_retained_bytes_per_tenant as u128 || cap_sum(all.1, bytes as u128)
            > usize::MAX as u128 {
            return Err(Error::Overloaded);
        }
        let ghost before = self@;
        if let Some(i) = self.find_retained(topic) {
            let shadowed = self.retained[i].clone();
            self.shadowed.push(shadowed);
            proof {
                assert(before.retained[i as int] == self.retained@[i as int]@);
                assert(self@.shadowed =~= before.shadowed.push(before.retained[i as int]));
                assert(self@ =~= (BrokerView { shadowed: self@.shadowed, ..before }));
            }
        }
        self.update_retained(&retained.tenant_id, retained.origin.as_ref(), message);
        Ok(())
    }

    fn restore_topics(&mut self, retained: &Vec<(String, RetainedMessage)>, now: i64) -> (result: Result<
        (),
        Error,
    >)
        requires
            old(self).wf(),
        ensures
            final(self).wf(),
            final(self).limits == old(self).limits,
            came_to(
                restore_messages(old(self)@, old(self).limits, now, topic_views(retained@)),
                result,
                final(self)@,
            ),
    {
        let ghost all = topic_views(retained@);
        let ghost start = self@;
        let ghost limits = self.limits;
        let mut at: usize = 0;
        assert(all.take(0).len() == 0);
        while at < retained.len()
            invariant
                at <= retained.len(),
                self.wf(),
                self.limits == limits,
                limits == old(self).limits,
                start == old(self)@,
                all == topic_views(retained@),
                restore_messages(start, limits, now, all.take(at as int)) == Ok::<
                    BrokerView,
                    Error,
                >(self@),
            decreases retained.len() - at,
        {
            proof {
                assert(all.take(at as int + 1).drop_last() =~= all.take(at as int));
                assert(all.take(at as int + 1).last() == (
                    retained@[at as int].0@,
                    retained@[at as int].1@,
                ));
            }
            if let Err(error) = self.restore_retained(
                retained[at].0.as_str(),
                &retained[at].1,
                now,
            ) {
                proof {
                    lemma_messages_refused(start, limits, now, all, at as int + 1);
                }
                return Err(error);
            }
            at = at + 1;
        }
        assert(all.take(all.len() as int) =~= all);
        Ok(())
    }

    fn restore_one_will(&mut self, will: &PendingWill, now: i64) -> (result: Result<(), Error>)
        requires
            old(self).wf(),
        ensures
            final(self).wf(),
            final(self).limits == old(self).limits,
            came_to(
                restore_will(old(self)@, old(self).limits, now, will@),
                result,
                final(self)@,
            ),
    {
        proof {
            reveal(restore_will);
        }
        let ghost before = self@;
        let origin_ok = match &will.origin {
            Some(key) => key.device.same(&will.owner) && byte_len(key.client_id.as_str())
                <= self.limits.max_client_id_bytes,
            None => true,
        };
        let resume_ok = match &will.cancel_on_resume {
            Some(entry) => entry.0.device.same(&will.owner) && entry.1 != 0 && byte_len(
                entry.0.client_id.as_str(),
            ) <= self.limits.max_client_id_bytes,
            None => true,
        };
        if !valid_broker_message(&will.message, &self.limits) || will.message.payload.len()
            > self.limits.max_will_payload_bytes || !device_publish_topic(
            &will.owner,
            will.message.topic.as_str(),
            None,
        ) || !origin_ok || will.due_at_ms.is_some() != will.cancel_on_resume.is_some()
            || !resume_ok {
            return Err(Error::Invalid);
        }
        if will.message.expired(now) {
            return Ok(());
        }
        if !self.may_hold_will(&will.owner.tenant_id, will.bytes()) {
            return Err(Error::Overloaded);
        }
        let reservation = self.reserve_retained(
            &will.owner.tenant_id,
            will.origin.as_ref(),
            &will.message,
        )?;
        let mut will = will.clone();
        will.retained_reservation = reservation;
        will.counted = true;
        let ghost w = will@;
        if will.due_at_ms.is_some() {
            self.future_wills.push(will);
            assert(self@.future_wills =~= before.future_wills.push(w));
        } else {
            self.pending_wills.push(will);
            assert(self@.pending_wills =~= before.pending_wills.push(w));
        }
        assert(self@ =~= with_will(before, w));
        Ok(())
    }

    fn restore_wills(&mut self, wills: &Vec<PendingWill>, now: i64) -> (result: Result<(), Error>)
        requires
            old(self).wf(),
        ensures
            final(self).wf(),
            final(self).limits == old(self).limits,
            came_to(
                restore_wills(old(self)@, old(self).limits, now, will_views(wills@)),
                result,
                final(self)@,
            ),
    {
        let ghost all = will_views(wills@);
        let ghost start = self@;
        let ghost limits = self.limits;
        let mut at: usize = 0;
        assert(all.take(0).len() == 0);
        while at < wills.len()
            invariant
                at <= wills.len(),
                self.wf(),
                self.limits == limits,
                limits == old(self).limits,
                start == old(self)@,
                all == will_views(wills@),
                restore_wills(start, limits, now, all.take(at as int)) == Ok::<BrokerView, Error>(
                    self@,
                ),
            decreases wills.len() - at,
        {
            proof {
                assert(all.take(at as int + 1).drop_last() =~= all.take(at as int));
                assert(all.take(at as int + 1).last() == wills@[at as int]@);
            }
            if let Err(error) = self.restore_one_will(&wills[at], now) {
                proof {
                    lemma_wills_refused(start, limits, now, all, at as int + 1);
                }
                return Err(error);
            }
            at = at + 1;
        }
        assert(all.take(all.len() as int) =~= all);
        Ok(())
    }

    fn reserve_one(&mut self, i: usize, k: usize) -> (result: Result<(), Error>)
        requires
            old(self).wf(),
            i < old(self)@.sessions.len(),
            k < old(self)@.sessions[i as int].inbound.len(),
        ensures
            final(self).wf(),
            final(self).limits == old(self).limits,
            came_to(
                reserve_entry(old(self)@, old(self).limits, i as int, k as int),
                result,
                final(self)@,
            ),
            result is Ok ==> final(self)@.sessions.len() == old(self)@.sessions.len()
                && final(self)@.sessions[i as int].inbound.len()
                == old(self)@.sessions[i as int].inbound.len(),
    {
        proof {
            reveal(reserve_entry);
            lemma_session_ok(self.sessions@, i as int);
            assert(self@.sessions[i as int].inbound.len()
                == self.sessions@[i as int].inbound_qos2@.len());
            assert(self@.sessions[i as int].inbound[k as int]
                == self.sessions@[i as int].inbound_qos2@[k as int]@);
        }
        let session = &self.sessions[i];
        let reservation = self.reserve_retained(
            &session.key.device.tenant_id,
            Some(&session.key),
            session.inbound_qos2[k].state.message(),
        )?;
        let stage = self.sessions[i].inbound_qos2[k].state.stage_now();
        let operation_id = self.sessions[i].inbound_qos2[k].operation_id;
        let ghost before = *self;
        self.sessions[i].update_inbound(k, stage, operation_id, reservation);
        proof {
            self.lemma_touched(i as int, before);
        }
        Ok(())
    }

    fn reserve_session(&mut self, i: usize) -> (result: Result<(), Error>)
        requires
            old(self).wf(),
            i < old(self)@.sessions.len(),
        ensures
            final(self).wf(),
            final(self).limits == old(self).limits,
            came_to(
                reserve_entries(old(self)@, old(self).limits, i as int, 0),
                result,
                final(self)@,
            ),
            result is Ok ==> final(self)@.sessions.len() == old(self)@.sessions.len(),
    {
        let ghost goal = reserve_entries(self@, self.limits, i as int, 0);
        let number: usize = self.sessions[i].inbound_qos2.len();
        assert(self@.sessions[i as int].inbound.len() == number);
        let mut k: usize = 0;
        while k < number
            invariant
                self.wf(),
                self.limits == old(self).limits,
                k <= number,
                i < self@.sessions.len() == old(self)@.sessions.len(),
                self@.sessions[i as int].inbound.len() == number,
                goal == reserve_entries(old(self)@, old(self).limits, i as int, 0),
                goal == reserve_entries(self@, self.limits, i as int, k as int),
            decreases number - k,
        {
            if let Err(error) = self.reserve_one(i, k) {
                return Err(error);
            }
            k = k + 1;
        }
        Ok(())
    }

    fn reserve_all(&mut self) -> (result: Result<(), Error>)
        requires
            old(self).wf(),
        ensures
            final(self).wf(),
            final(self).limits == old(self).limits,
            came_to(reserve_sessions(old(self)@, old(self).limits, 0), result, final(self)@),
    {
        let ghost goal = reserve_sessions(self@, self.limits, 0);
        let number: usize = self.sessions.len();
        assert(self@.sessions.len() == number);
        let mut i: usize = 0;
        while i < number
            invariant
                self.wf(),
                self.limits == old(self).limits,
                i <= number,
                self@.sessions.len() == number,
                goal == reserve_sessions(old(self)@, old(self).limits, 0),
                goal == reserve_sessions(self@, self.limits, i as int),
            decreases number - i,
        {
            if let Err(error) = self.reserve_session(i) {
                return Err(error);
            }
            i = i + 1;
        }
        Ok(())
    }

    fn are_totals_allowed(&self) -> (allowed: bool)
        requires
            self.wf(),
        ensures
            allowed == totals_allowed(self@, self.limits),
    {
        let all = self.totals();
        let retained = self.retained_totals(None);
        all.subscriptions <= self.limits.max_subscriptions as u128 && all.offline_count
            <= self.limits.max_offline_messages as u128 && all.offline_bytes
            <= self.limits.max_offline_bytes as u128 && all.state_bytes
            <= self.limits.global_mqtt_session_bytes as u128 && retained.1
            <= self.limits.max_retained_bytes as u128
    }

    fn build_parts(limits: Limits, snapshot: MqttRecoverySnapshot, now: i64) -> (result: Result<
        MqttBroker,
        Error,
    >)
        ensures
            match (restored_parts(limits, now, snapshot@), result) {
                (Ok(b), Ok(broker)) => broker@ == b && broker.wf() && broker.limits == limits,
                (Err(error), Err(got)) => got == error,
                _ => false,
            },
    {
        proof {
            reveal(restored_parts);
        }
        let mut broker = MqttBroker::new(limits);
        broker.generation = snapshot.snapshot_generation;
        assert(broker@ =~= (BrokerView {
            generation: snapshot@.generation,
            ..empty_broker()
        }));
        broker.restore_sessions(snapshot.sessions, snapshot.format_version, now)?;
        broker.restore_topics(&snapshot.retained, now)?;
        broker.restore_wills(&snapshot.pending_wills, now)?;
        broker.reserve_all()?;
        Ok(broker)
    }

    /// Puts another state in the place of this one. What connections hold stays theirs.
    fn hand_over(&mut self, other: MqttBroker)
        requires
            old(self).wf(),
            other.wf(),
            other.limits == old(self).limits,
        ensures
            final(self).wf(),
            final(self).limits == old(self).limits,
            final(self)@ == put_in_place(old(self)@, other@),
    {
        let ghost before = self@;
        let ghost links = self.links@;
        let ghost guards = self.guards@;
        let mut at: usize = 0;
        while at < self.links.len()
            invariant
                at <= self.links.len() == links.len(),
                before.links == link_views(links),
                self.guards@ == guards,
                self.next_guard == before.next_guard,
                self.next_receiver == before.next_receiver,
                forall|j: int| 0 <= j < at ==> (#[trigger] self.links@[j])@ == cut_off(links[j]@),
                forall|j: int| at <= j < links.len() ==> #[trigger] self.links@[j] == links[j],
            decreases self.links.len() - at,
        {
            self.links[at].active = false;
            self.links[at].adrift = true;
            at = at + 1;
        }
        at = 0;
        while at < self.guards.len()
            invariant
                at <= self.guards.len() == guards.len(),
                before.guards == guard_views(guards),
                self.links@.len() == links.len(),
                self.next_guard == before.next_guard,
                self.next_receiver == before.next_receiver,
                forall|j: int|
                    0 <= j < links.len() ==> (#[trigger] self.links@[j])@ == cut_off(links[j]@),
                forall|k: int|
                    0 <= k < at ==> (#[trigger] self.guards@[k])@ == unbacked(guards[k]@),
                forall|k: int| at <= k < guards.len() ==> #[trigger] self.guards@[k] == guards[k],
            decreases self.guards.len() - at,
        {
            self.guards[at].will.retained_reservation = RetainedReservation { count: 0, bytes: 0 };
            self.guards[at].will.counted = false;
            at = at + 1;
        }
        let mut other = other;
        let ghost b = other@;
        other.next_guard = self.next_guard;
        other.next_receiver = self.next_receiver;
        std::mem::swap(&mut other.links, &mut self.links);
        std::mem::swap(&mut other.guards, &mut self.guards);
        *self = other;
        proof {
            assert(self@.links =~= all_cut_off(before.links));
            assert(self@.guards =~= all_unbacked(before.guards));
            assert(self@ =~= put_in_place(before, b));
        }
    }

    /// Replaces the broker's state by what a snapshot describes. What connections still hold of
    /// the old state stays theirs. A snapshot that is refused leaves the broker as it was.
    pub fn restore(&mut self, snapshot: MqttRecoverySnapshot, now: i64) -> (result: Result<(), Error>)
        requires
            old(self).wf(),
        ensures
            final(self).wf(),
            final(self).limits == old(self).limits,
            match restored(old(self).limits, now, snapshot@) {
                Ok(b) => result is Ok && final(self)@ == put_in_place(old(self)@, b),
                Err(error) => result is Err && result->Err_0 == error && *final(self)
                    == *old(self),
            },
    {
        proof {
            reveal(restored);
        }
        assert(snapshot@.sessions.len() == snapshot.sessions@.len());
        assert(snapshot@.retained.len() == snapshot.retained@.len());
        if snapshot.format_version < RECOVERY_VERSION_V1 || snapshot.format_version
            > RECOVERY_VERSION || snapshot.sessions.len() > self.limits.max_persistent_sessions
            || snapshot.retained.len() > self.limits.max_retained_messages {
            return Err(Error::Configuration);
        }
        let mut broker = MqttBroker::build_parts(self.limits, snapshot, now)?;
        if !broker.are_totals_allowed() {
            return Err(Error::Overloaded);
        }
        broker.retry_pending_wills(now);
        self.hand_over(broker);
        Ok(())
    }
}

/// What follows a refused part makes no difference.
proof fn lemma_sessions_refused(
    b: BrokerView,
    limits: Limits,
    now: i64,
    version: u32,
    all: Seq<RecordedView>,
    n: int,
)
    requires
        0 <= n <= all.len(),
        restore_sessions(b, limits, now, version, all.take(n)) is Err,
    ensures
        restore_sessions(b, limits, now, version, all) == restore_sessions(
            b,
            limits,
            now,
            version,
            all.take(n),
        ),
    decreases all.len(),
{
    if n < all.len() {
        assert(all.drop_last().take(n) =~= all.take(n));
        lemma_sessions_refused(b, limits, now, version, all.drop_last(), n);
    } else {
        assert(all.take(n) =~= all);
    }
}

proof fn lemma_messages_refused(
    b: BrokerView,
    limits: Limits,
    now: i64,
    all: Seq<(Seq<char>, RetainedView)>,
    n: int,
)
    requires
        0 <= n <= all.len(),
        restore_messages(b, limits, now, all.take(n)) is Err,
    ensures
        restore_messages(b, limits, now, all) == restore_messages(b, limits, now, all.take(n)),
    decreases all.len(),
{
    if n < all.len() {
        assert(all.drop_last().take(n) =~= all.take(n));
        lemma_messages_refused(b, limits, now, all.drop_last(), n);
    } else {
        assert(all.take(n) =~= all);
    }
}

proof fn lemma_wills_refused(b: BrokerView, limits: Limits, now: i64, all: Seq<WillView>, n: int)
    requires
        0 <= n <= all.len(),
        restore_wills(b, limits, now, all.take(n)) is Err,
    ensures
        restore_wills(b, limits, now, all) == restore_wills(b, limits, now, all.take(n)),
    decreases all.len(),
{
    if n < all.len() {
        assert(all.drop_last().take(n) =~= all.take(n));
        lemma_wills_refused(b, limits, now, all.drop_last(), n);
    } else {
        assert(all.take(n) =~= all);
    }
}

} // verus!
