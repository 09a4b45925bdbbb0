//! What was written is what is read back.
use super::encode::{
    inbound_record, offline_record, outbound_record, retained_record, session_record,
    subscription_record, will_record, RecordView,
};
use super::fields::{lemma_join, text_fits};
use super::image::{
    checksum, decode_image, decode_records, image, inbound_records, lemma_checksum_len,
    offline_records, outbound_records, prefix, read_records, record_max, recovery_magic,
    retained_records, session_records, sessions_records, snapshot_records, subscription_records,
    trailer, trailer_magic, will_records, wire, write_all, write_one, ImageView,
    RECOVERY_HEADER_BYTES, RECOVERY_TRAILER_BYTES,
};
use super::message::message_kept;
use super::record::{
    add_inbound, add_offline, add_outbound, add_subscription, apply_record, inbound_kept,
    lemma_inbound, lemma_offline, lemma_outbound, lemma_retained, lemma_session, lemma_subscription,
    lemma_will, outbound_kept, retained_kept, same_bound, session_meta_kept, stage_bound,
    subscription_kept, topic_is, will_kept, with_last, RECORD_RETAINED,
};
use super::snapshot::{
    blank, emptied_session, inbound_after, inbound_all_after, outbound_after, outbound_all_after,
    recorded_after, recovered, sessions_after, will_after, wills_after, RecordedView, SnapshotView,
    RECOVERY_VERSION,
};
use crate::broker::model::{RetainedView, WillView};
use crate::error::Error;
use crate::limits::Limits;
use crate::list::{count, distinct, lemma_first_none, lemma_total_take, total};
use crate::message::MessageView;
use crate::number::{be32, be64, lemma_be_round_trip, lemma_power256, lemma_to_be_len};
use crate::session::{
    inbound_at, inbound_is, inbound_key, is_puback, is_qos2, message_charge, outbound_at,
    outbound_is, outbound_key, sub_at, sub_is, sub_key, InboundView, OutboundView, SessionView,
    Subscription,
};
use vstd::prelude::*;

verus! {

/// What records add to an image, one after the other.
pub open spec fn apply_all(records: Seq<RecordView>, snapshot: SnapshotView, limits: Limits) -> Result<
    SnapshotView,
    Error,
>
    decreases records.len(),
{
    if records.len() == 0 {
        Ok(snapshot)
    } else {
        match apply_all(records.drop_last(), snapshot, limits) {
            Err(error) => Err(error),
            Ok(before) => apply_record(
                before,
                limits,
                RECOVERY_VERSION,
                records.last().kind,
                records.last().payload->Ok_0,
            ),
        }
    }
}

proof fn lemma_apply_join(
    a: Seq<RecordView>,
    b: Seq<RecordView>,
    snapshot: SnapshotView,
    middle: SnapshotView,
    limits: Limits,
)
    requires
        apply_all(a, snapshot, limits) == Ok::<SnapshotView, Error>(middle),
    ensures
        apply_all(a + b, snapshot, limits) == apply_all(b, middle, limits),
    decreases b.len(),
{
    if b.len() == 0 {
        assert(a + b =~= a);
    } else {
        lemma_apply_join(a, b.drop_last(), snapshot, middle, limits);
        assert((a + b).drop_last() =~= a + b.drop_last());
        assert((a + b).last() == b.last());
    }
}

/// Every record could be written and is within its bounds.
pub open spec fn writable(r: RecordView, limits: Limits) -> bool {
    &&& r.payload is Ok
    &&& record_max(limits) matches Some(maximum) && r.payload->Ok_0.len() <= maximum
    &&& r.payload->Ok_0.len() <= u32::MAX
}

proof fn lemma_written(records: Seq<RecordView>, limits: Limits)
    requires
        write_all(records, limits) is Ok,
    ensures
        forall|i: int| 0 <= i < records.len() ==> writable(#[trigger] records[i], limits),
    decreases records.len(),
{
    if records.len() > 0 {
        reveal(write_one);
        lemma_written(records.drop_last(), limits);
        assert forall|i: int| 0 <= i < records.len() implies writable(
            #[trigger] records[i],
            limits,
        ) by {
            if i < records.len() - 1 {
                assert(records.drop_last()[i] == records[i]);
            }
        }
    }
}

/// A record in front of others is read and adds what it holds.
#[verifier::spinoff_prover]
#[verifier::rlimit(50)]
proof fn lemma_read_wire(
    kind: u8,
    payload: Seq<u8>,
    rest: Seq<u8>,
    limits: Limits,
    snapshot: SnapshotView,
    phase: bool,
    number: nat,
)
    requires
        record_max(limits) matches Some(maximum) && payload.len() <= maximum,
        payload.len() <= u32::MAX,
        phase ==> kind == RECORD_RETAINED,
    ensures
        read_records(
            wire(kind, payload) + rest,
            limits,
            RECOVERY_VERSION,
            snapshot,
            phase,
            number,
        ) == match apply_record(snapshot, limits, RECOVERY_VERSION, kind, payload) {
            Err(error) => Err(error),
            Ok(next) => read_records(
                rest,
                limits,
                RECOVERY_VERSION,
                next,
                kind == RECORD_RETAINED,
                number + 1,
            ),
        },
{
    let s = wire(kind, payload) + rest;
    let a = seq![kind];
    let b = be32(payload.len() as u32);
    let c = payload;
    let d = checksum(payload);
    let n = payload.len() as int;
    lemma_checksum_len(payload);
    lemma_to_be_len(payload.len(), 4);
    lemma_power256();
    lemma_be_round_trip(payload.len(), 4);
    assert(wire(kind, payload) == a + (b + (c + d))) by {
        reveal(wire);
    }
    assert(s.len() == 37 + n + rest.len());
    assert(s[0] == kind);
    assert(s.subrange(1, 5) =~= b);
    assert(s.subrange(5, 5 + n) =~= c);
    assert(s.subrange(5 + n, 37 + n) =~= d);
    assert(s.skip(37 + n) =~= rest);
}

/// Retained messages come after everything else.
pub open spec fn retained_last(records: Seq<RecordView>) -> bool {
    forall|i: int, j: int|
        0 <= i < j < records.len() && (#[trigger] records[i]).kind == RECORD_RETAINED ==> (
        #[trigger] records[j]).kind == RECORD_RETAINED
}

pub open spec fn phase_after(records: Seq<RecordView>) -> bool {
    records.len() > 0 && records.last().kind == RECORD_RETAINED
}

proof fn lemma_read_all(
    records: Seq<RecordView>,
    rest: Seq<u8>,
    limits: Limits,
    snapshot: SnapshotView,
)
    requires
        write_all(records, limits) is Ok,
        retained_last(records),
    ensures
        read_records(
            write_all(records, limits)->Ok_0 + rest,
            limits,
            RECOVERY_VERSION,
            snapshot,
            false,
            0,
        ) == match apply_all(records, snapshot, limits) {
            Err(error) => Err(error),
            Ok(next) => read_records(
                rest,
                limits,
                RECOVERY_VERSION,
                next,
                phase_after(records),
                records.len(),
            ),
        },
    decreases records.len(),
{
    if records.len() == 0 {
        assert(write_all(records, limits)->Ok_0 + rest =~= rest);
    } else {
        let front = records.drop_last();
        let last = records.last();
        let out = write_all(front, limits)->Ok_0;
        lemma_written(records, limits);
        assert(writable(records[records.len() - 1], limits));
        let payload = last.payload->Ok_0;
        assert(write_all(records, limits) == Ok::<Seq<u8>, Error>(out + wire(last.kind, payload)))
            by {
            reveal(write_one);
        }
        lemma_join(out, wire(last.kind, payload), rest);
        assert(retained_last(front)) by {
            assert forall|i: int, j: int|
                0 <= i < j < front.len() && (#[trigger] front[i]).kind == RECORD_RETAINED implies (
            #[trigger] front[j]).kind == RECORD_RETAINED by {
                assert(records[i] == front[i] && records[j] == front[j]);
            }
        }
        lemma_read_all(front, wire(last.kind, payload) + rest, limits, snapshot);
        if let Ok(middle) = apply_all(front, snapshot, limits) {
            if phase_after(front) {
                assert(records[front.len() - 1] == front.last());
                assert(records[records.len() - 1].kind == RECORD_RETAINED);
            }
            lemma_read_wire(
                last.kind,
                payload,
                rest,
                limits,
                middle,
                phase_after(front),
                front.len(),
            );
        }
    }
}

/// Replacing the last session twice is replacing it once.
proof fn lemma_with_last(snapshot: SnapshotView, r: RecordedView, t: RecordedView)
    requires
        snapshot.sessions.len() > 0,
    ensures
        with_last(with_last(snapshot, r), t) == with_last(snapshot, t),
        with_last(snapshot, r).sessions.len() == snapshot.sessions.len(),
        with_last(snapshot, r).sessions.last() == r,
        with_last(snapshot, snapshot.sessions.last()) == snapshot,
{
    assert(with_last(with_last(snapshot, r), t) =~= with_last(snapshot, t));
    assert(with_last(snapshot, snapshot.sessions.last()) =~= snapshot);
}

pub open spec fn with_subscriptions(r: RecordedView, subs: Seq<(Seq<char>, Subscription)>) -> RecordedView {
    RecordedView { session: SessionView { subscriptions: subs, ..r.session }, ..r }
}

proof fn lemma_apply_subscriptions(
    snapshot: SnapshotView,
    limits: Limits,
    subs: Seq<(Seq<char>, Subscription)>,
    n: int,
)
    requires
        0 <= n <= subs.len(),
        snapshot.sessions.len() > 0,
        snapshot.sessions.last().session.subscriptions.len() == 0,
        distinct(subs, sub_key()),
        subs.len() <= limits.max_subscriptions_per_session,
        forall|i: int|
            0 <= i < subs.len() ==> subscription_kept((#[trigger] subs[i]).0, subs[i].1, limits)
                && text_fits(subs[i].0),
    ensures
        apply_all(subscription_records(subs).take(n), snapshot, limits) == Ok::<
            SnapshotView,
            Error,
        >(with_last(snapshot, with_subscriptions(snapshot.sessions.last(), subs.take(n)))),
    decreases n,
{
    let r = snapshot.sessions.last();
    let records = subscription_records(subs);
    if n == 0 {
        lemma_with_last(snapshot, r, r);
        assert(r.session.subscriptions =~= subs.take(0));
        assert(with_subscriptions(r, subs.take(0)) =~= r);
        assert(records.take(0).len() == 0);
    } else {
        lemma_apply_subscriptions(snapshot, limits, subs, n - 1);
        let entry = subs[n - 1];
        let seen = subs.take(n - 1);
        let here = with_subscriptions(r, seen);
        let before = with_last(snapshot, here);
        lemma_with_last(snapshot, here, with_subscriptions(r, subs.take(n)));
        assert(records.take(n).drop_last() =~= records.take(n - 1));
        assert(records.take(n).last() == subscription_record(entry));
        lemma_subscription(entry.0, entry.1, limits);
        assert forall|i: int| 0 <= i < seen.len() implies !sub_is(entry.0)(#[trigger] seen[i]) by {
            assert(seen[i] == subs[i]);
            assert(sub_key()(subs[i]) != sub_key()(subs[n - 1]));
        }
        lemma_first_none(seen, sub_is(entry.0));
        assert(sub_at(here.session, entry.0) is None);
        assert(seen.push(entry) =~= subs.take(n));
        reveal(apply_record);
        reveal(add_subscription);
    }
}

pub open spec fn with_offline(r: RecordedView, messages: Seq<MessageView>) -> RecordedView {
    RecordedView {
        session: SessionView { offline: messages, ..r.session },
        offline_bytes: total(messages, message_charge()),
    }
}

proof fn lemma_apply_offline(
    snapshot: SnapshotView,
    limits: Limits,
    messages: Seq<MessageView>,
    n: int,
)
    requires
        0 <= n <= messages.len(),
        snapshot.sessions.len() > 0,
        snapshot.sessions.last().session.offline.len() == 0,
        snapshot.sessions.last().offline_bytes == 0,
        messages.len() <= limits.max_offline_messages_per_session,
        total(messages, message_charge()) <= usize::MAX,
        forall|i: int|
            0 <= i < messages.len() ==> message_kept(#[trigger] messages[i], limits)
                && super::message::message_fits(messages[i]) && (messages[i].qos == 1
                || messages[i].qos == 2),
    ensures
        apply_all(offline_records(messages).take(n), snapshot, limits) == Ok::<
            SnapshotView,
            Error,
        >(with_last(snapshot, with_offline(snapshot.sessions.last(), messages.take(n)))),
    decreases n,
{
    let r = snapshot.sessions.last();
    let records = offline_records(messages);
    if n == 0 {
        lemma_with_last(snapshot, r, r);
        assert(r.session.offline =~= messages.take(0));
        assert(with_offline(r, messages.take(0)) =~= r);
        assert(records.take(0).len() == 0);
    } else {
        lemma_apply_offline(snapshot, limits, messages, n - 1);
        let message = messages[n - 1];
        let seen = messages.take(n - 1);
        let here = with_offline(r, seen);
        lemma_with_last(snapshot, here, with_offline(r, messages.take(n)));
        assert(records.take(n).drop_last() =~= records.take(n - 1));
        assert(records.take(n).last() == offline_record(message));
        lemma_offline(message, limits);
        assert(seen.push(message) =~= messages.take(n));
        lemma_total_take(messages, n - 1, message_charge());
        lemma_total_prefix(messages, n);
        reveal(apply_record);
        reveal(add_offline);
    }
}

proof fn lemma_total_prefix(messages: Seq<MessageView>, n: int)
    requires
        0 <= n <= messages.len(),
    ensures
        total(messages.take(n), message_charge()) <= total(messages, message_charge()),
    decreases messages.len(),
{
    if n == messages.len() {
        assert(messages.take(n) =~= messages);
    } else {
        lemma_total_prefix(messages.drop_last(), n);
        assert(messages.drop_last().take(n) =~= messages.take(n));
    }
}

pub open spec fn with_inbound(r: RecordedView, entries: Seq<InboundView>) -> RecordedView {
    RecordedView { session: SessionView { inbound: entries, ..r.session }, ..r }
}

proof fn lemma_apply_inbound(
    snapshot: SnapshotView,
    limits: Limits,
    entries: Seq<InboundView>,
    n: int,
)
    requires
        0 <= n <= entries.len(),
        snapshot.sessions.len() > 0,
        snapshot.sessions.last().session.inbound.len() == 0,
        snapshot.sessions.last().session.outbound.len() == 0,
        distinct(entries, inbound_key()),
        entries.len() <= limits.max_inflight_qos2_per_session,
        forall|i: int|
            0 <= i < entries.len() ==> inbound_kept(#[trigger] entries[i], limits)
                && super::message::message_fits(entries[i].message),
    ensures
        apply_all(inbound_records(entries).take(n), snapshot, limits) == Ok::<SnapshotView, Error>(
            with_last(
                snapshot,
                with_inbound(snapshot.sessions.last(), inbound_all_after(entries.take(n))),
            ),
        ),
    decreases n,
{
    let r = snapshot.sessions.last();
    let records = inbound_records(entries);
    if n == 0 {
        lemma_with_last(snapshot, r, r);
        assert(r.session.inbound =~= inbound_all_after(entries.take(0)));
        assert(with_inbound(r, inbound_all_after(entries.take(0))) =~= r);
        assert(records.take(0).len() == 0);
    } else {
        lemma_apply_inbound(snapshot, limits, entries, n - 1);
        let entry = entries[n - 1];
        let seen = inbound_all_after(entries.take(n - 1));
        let here = with_inbound(r, seen);
        lemma_with_last(snapshot, here, with_inbound(r, inbound_all_after(entries.take(n))));
        assert(records.take(n).drop_last() =~= records.take(n - 1));
        assert(records.take(n).last() == inbound_record(entry));
        lemma_inbound(entry, limits);
        assert forall|i: int| 0 <= i < seen.len() implies !inbound_is(entry.packet_id)(
            #[trigger] seen[i],
        ) by {
            assert(seen[i] == inbound_after(entries[i]));
            assert(inbound_key()(entries[i]) != inbound_key()(entries[n - 1]));
        }
        lemma_first_none(seen, inbound_is(entry.packet_id));
        assert(inbound_at(here.session, entry.packet_id) is None);
        assert(seen.push(inbound_after(entry)) =~= inbound_all_after(entries.take(n)));
        assert(count(here.session.outbound, is_qos2()) == 0);
        reveal(apply_record);
        reveal(add_inbound);
    }
}

pub open spec fn with_outbound(r: RecordedView, entries: Seq<OutboundView>) -> RecordedView {
    RecordedView { session: SessionView { outbound: entries, ..r.session }, ..r }
}

/// A restart changes no stage, so it changes no count of them.
proof fn lemma_count_after(entries: Seq<OutboundView>, n: int)
    requires
        0 <= n <= entries.len(),
    ensures
        count(outbound_all_after(entries.take(n)), is_puback()) == count(
            entries.take(n),
            is_puback(),
        ),
        count(outbound_all_after(entries.take(n)), is_qos2()) == count(entries.take(n), is_qos2()),
        count(entries.take(n), is_puback()) <= count(entries, is_puback()),
        count(entries.take(n), is_qos2()) <= count(entries, is_qos2()),
        n > 0 ==> count(entries.take(n), is_puback()) == count(entries.take(n - 1), is_puback())
            + if is_puback()(entries[n - 1]) {
            1nat
        } else {
            0nat
        },
        n > 0 ==> count(entries.take(n), is_qos2()) == count(entries.take(n - 1), is_qos2())
            + if is_qos2()(entries[n - 1]) {
            1nat
        } else {
            0nat
        },
    decreases entries.len(),
{
    if n > 0 {
        assert(entries.take(n).drop_last() =~= entries.take(n - 1));
    }
    if n < entries.len() {
        lemma_count_after(entries.drop_last(), n);
        assert(entries.drop_last().take(n) =~= entries.take(n));
    } else {
        assert(entries.take(n) =~= entries);
        if n > 0 {
            lemma_count_after(entries.drop_last(), n - 1);
            assert(entries.drop_last().take(n - 1) =~= entries.drop_last());
            assert(outbound_all_after(entries).drop_last() =~= outbound_all_after(
                entries.drop_last(),
            ));
        }
    }
}

proof fn lemma_apply_outbound(
    snapshot: SnapshotView,
    limits: Limits,
    entries: Seq<OutboundView>,
    n: int,
)
    requires
        0 <= n <= entries.len(),
        snapshot.sessions.len() > 0,
        snapshot.sessions.last().session.outbound.len() == 0,
        distinct(entries, outbound_key()),
        count(entries, is_puback()) <= limits.max_inflight_qos1_per_session,
        count(entries, is_qos2()) <= limits.max_inflight_qos2_per_session,
        forall|i: int|
            0 <= i < entries.len() ==> outbound_kept(#[trigger] entries[i], limits)
                && super::message::message_fits(entries[i].message),
    ensures
        apply_all(outbound_records(entries).take(n), snapshot, limits) == Ok::<SnapshotView, Error>(
            with_last(
                snapshot,
                with_outbound(snapshot.sessions.last(), outbound_all_after(entries.take(n))),
            ),
        ),
    decreases n,
{
    let r = snapshot.sessions.last();
    let records = outbound_records(entries);
    if n == 0 {
        lemma_with_last(snapshot, r, r);
        assert(r.session.outbound =~= outbound_all_after(entries.take(0)));
        assert(with_outbound(r, outbound_all_after(entries.take(0))) =~= r);
        assert(records.take(0).len() == 0);
    } else {
        lemma_apply_outbound(snapshot, limits, entries, n - 1);
        let entry = entries[n - 1];
        let seen = outbound_all_after(entries.take(n - 1));
        let here = with_outbound(r, seen);
        lemma_with_last(snapshot, here, with_outbound(r, outbound_all_after(entries.take(n))));
        assert(records.take(n).drop_last() =~= records.take(n - 1));
        assert(records.take(n).last() == outbound_record(entry));
        lemma_outbound(entry, limits);
        assert forall|i: int| 0 <= i < seen.len() implies !outbound_is(entry.packet_id)(
            #[trigger] seen[i],
        ) by {
            assert(seen[i] == outbound_after(entries[i]));
            assert(outbound_key()(entries[i]) != outbound_key()(entries[n - 1]));
        }
        lemma_first_none(seen, outbound_is(entry.packet_id));
        assert(outbound_at(here.session, entry.packet_id) is None);
        assert(seen.push(outbound_after(entry)) =~= outbound_all_after(entries.take(n)));
        lemma_count_after(entries, n - 1);
        lemma_count_after(entries, n);
        assert(same_bound(here.session, entry.stage) < stage_bound(limits, entry.stage));
        reveal(apply_record);
        reveal(add_outbound);
    }
}

/// The session is one that an image gives back: its parts are well formed and within the limits,
/// nothing occurs twice, and the byte count of its waiting messages is right.
pub open spec fn session_kept(r: RecordedView, limits: Limits) -> bool {
    let s = r.session;
    &&& session_meta_kept(s, limits)
    &&& distinct(s.subscriptions, sub_key())
    &&& distinct(s.inbound, inbound_key())
    &&& distinct(s.outbound, outbound_key())
    &&& s.subscriptions.len() <= limits.max_subscriptions_per_session
    &&& s.offline.len() <= limits.max_offline_messages_per_session
    &&& s.inbound.len() <= limits.max_inflight_qos2_per_session
    &&& count(s.outbound, is_puback()) <= limits.max_inflight_qos1_per_session
    &&& count(s.outbound, is_qos2()) <= limits.max_inflight_qos2_per_session
    &&& r.offline_bytes == total(s.offline, message_charge())
    &&& r.offline_bytes <= usize::MAX
    &&& forall|i: int|
        0 <= i < s.subscriptions.len() ==> subscription_kept(
            (#[trigger] s.subscriptions[i]).0,
            s.subscriptions[i].1,
            limits,
        )
    &&& forall|i: int|
        0 <= i < s.offline.len() ==> message_kept(#[trigger] s.offline[i], limits) && (
        s.offline[i].qos == 1 || s.offline[i].qos == 2)
    &&& forall|i: int| 0 <= i < s.inbound.len() ==> inbound_kept(#[trigger] s.inbound[i], limits)
    &&& forall|i: int| 0 <= i < s.outbound.len() ==> outbound_kept(#[trigger] s.outbound[i], limits)
}

pub open spec fn topic_key() -> spec_fn((Seq<char>, RetainedView)) -> Seq<char> {
    |e: (Seq<char>, RetainedView)| e.0
}

/// The snapshot is one that an image gives back.
pub open spec fn snapshot_kept(snapshot: SnapshotView, limits: Limits) -> bool {
    &&& snapshot.sessions.len() <= limits.max_persistent_sessions
    &&& snapshot.wills.len() <= limits.max_connections
    &&& snapshot.retained.len() <= limits.max_retained_messages
    &&& forall|i: int|
        0 <= i < snapshot.sessions.len() ==> session_kept(#[trigger] snapshot.sessions[i], limits)
    &&& forall|i: int| 0 <= i < snapshot.wills.len() ==> will_kept(#[trigger] snapshot.wills[i], limits)
    &&& forall|i: int|
        0 <= i < snapshot.retained.len() ==> retained_kept((#[trigger] snapshot.retained[i]).1, limits)
            && snapshot.retained[i].0 == snapshot.retained[i].1.message.topic
    &&& distinct(snapshot.retained, topic_key())
}

/// All records of a part of a longer sequence could be written.
proof fn lemma_part_written(all: Seq<RecordView>, a: Seq<RecordView>, b: Seq<RecordView>, c: Seq<RecordView>, limits: Limits)
    requires
        all == a + b + c,
        forall|i: int| 0 <= i < all.len() ==> writable(#[trigger] all[i], limits),
    ensures
        forall|i: int| 0 <= i < b.len() ==> writable(#[trigger] b[i], limits),
{
    assert forall|i: int| 0 <= i < b.len() implies writable(#[trigger] b[i], limits) by {
        assert(all[a.len() + i] == b[i]);
    }
}

pub open spec fn with_session(snapshot: SnapshotView, r: RecordedView) -> SnapshotView {
    SnapshotView { sessions: snapshot.sessions.push(r), ..snapshot }
}

#[verifier::spinoff_prover]
#[verifier::rlimit(60)]
proof fn lemma_apply_session(snapshot: SnapshotView, limits: Limits, r: RecordedView)
    requires
        session_kept(r, limits),
        snapshot.sessions.len() < limits.max_persistent_sessions,
        forall|i: int|
            0 <= i < session_records(r.session).len() ==> writable(
                #[trigger] session_records(r.session)[i],
                limits,
            ),
    ensures
        apply_all(session_records(r.session), snapshot, limits) == Ok::<SnapshotView, Error>(
            with_session(snapshot, recorded_after(r)),
        ),
{
    let s = r.session;
    let a = seq![session_record(s)];
    let b = subscription_records(s.subscriptions);
    let c = offline_records(s.offline);
    let d = inbound_records(s.inbound);
    let e = outbound_records(s.outbound);
    let all = session_records(s);
    let none = Seq::<RecordView>::empty();
    assert(all =~= none + a + (b + c + d + e));
    assert(all =~= a + b + (c + d + e));
    assert(all =~= (a + b) + c + (d + e));
    assert(all =~= (a + b + c) + d + e);
    assert(all =~= (a + b + c + d) + e + none);
    lemma_part_written(all, none, a, b + c + d + e, limits);
    lemma_part_written(all, a, b, c + d + e, limits);
    lemma_part_written(all, a + b, c, d + e, limits);
    lemma_part_written(all, a + b + c, d, e, limits);
    lemma_part_written(all, a + b + c + d, e, none, limits);

    let r0 = RecordedView { session: emptied_session(s), offline_bytes: 0 };
    let s0 = with_session(snapshot, r0);
    assert(apply_all(a, snapshot, limits) == Ok::<SnapshotView, Error>(s0)) by {
        assert(a.drop_last() =~= none);
        assert(a.last() == session_record(s));
        assert(apply_all(none, snapshot, limits) == Ok::<SnapshotView, Error>(snapshot));
        assert(writable(a[0], limits));
        lemma_session(s, limits);
        reveal(apply_record);
    }
    assert(s0.sessions.last() == r0);

    assert forall|i: int| 0 <= i < s.subscriptions.len() implies text_fits(
        (#[trigger] s.subscriptions[i]).0,
    ) by {
        assert(writable(b[i], limits));
    }
    lemma_apply_subscriptions(s0, limits, s.subscriptions, s.subscriptions.len() as int);
    assert(b.take(s.subscriptions.len() as int) =~= b);
    assert(s.subscriptions.take(s.subscriptions.len() as int) =~= s.subscriptions);
    let r1 = with_subscriptions(r0, s.subscriptions);
    let s1 = with_last(s0, r1);
    lemma_apply_join(a, b, snapshot, s0, limits);
    lemma_with_last(s0, r1, r1);

    assert forall|i: int| 0 <= i < s.offline.len() implies super::message::message_fits(
        #[trigger] s.offline[i],
    ) by {
        assert(writable(c[i], limits));
    }
    lemma_apply_offline(s1, limits, s.offline, s.offline.len() as int);
    assert(c.take(s.offline.len() as int) =~= c);
    assert(s.offline.take(s.offline.len() as int) =~= s.offline);
    let r2 = with_offline(r1, s.offline);
    let s2 = with_last(s0, r2);
    lemma_with_last(s0, r1, r2);
    lemma_apply_join(a + b, c, snapshot, s1, limits);
    lemma_with_last(s0, r2, r2);

    assert forall|i: int| 0 <= i < s.inbound.len() implies super::message::message_fits(
        (#[trigger] s.inbound[i]).message,
    ) by {
        assert(writable(d[i], limits));
    }
    lemma_apply_inbound(s2, limits, s.inbound, s.inbound.len() as int);
    assert(d.take(s.inbound.len() as int) =~= d);
    assert(s.inbound.take(s.inbound.len() as int) =~= s.inbound);
    let r3 = with_inbound(r2, inbound_all_after(s.inbound));
    let s3 = with_last(s0, r3);
    lemma_with_last(s0, r2, r3);
    lemma_apply_join(a + b + c, d, snapshot, s2, limits);
    lemma_with_last(s0, r3, r3);

    assert forall|i: int| 0 <= i < s.outbound.len() implies super::message::message_fits(
        (#[trigger] s.outbound[i]).message,
    ) by {
        assert(writable(e[i], limits));
    }
    lemma_apply_outbound(s3, limits, s.outbound, s.outbound.len() as int);
    assert(e.take(s.outbound.len() as int) =~= e);
    assert(s.outbound.take(s.outbound.len() as int) =~= s.outbound);
    let r4 = with_outbound(r3, outbound_all_after(s.outbound));
    lemma_with_last(s0, r3, r4);
    lemma_apply_join(a + b + c + d, e, snapshot, s3, limits);
    assert(r4 =~= recorded_after(r));
    assert(with_last(s0, r4) =~= with_session(snapshot, recorded_after(r)));
}

proof fn lemma_apply_sessions(start: SnapshotView, limits: Limits, sessions: Seq<RecordedView>)
    requires
        start.sessions.len() == 0,
        sessions.len() <= limits.max_persistent_sessions,
        forall|i: int| 0 <= i < sessions.len() ==> session_kept(#[trigger] sessions[i], limits),
        forall|i: int|
            0 <= i < sessions_records(sessions).len() ==> writable(
                #[trigger] sessions_records(sessions)[i],
                limits,
            ),
    ensures
        apply_all(sessions_records(sessions), start, limits) == Ok::<SnapshotView, Error>(
            SnapshotView { sessions: sessions_after(sessions), ..start },
        ),
    decreases sessions.len(),
{
    if sessions.len() == 0 {
        assert(sessions_after(sessions) =~= start.sessions);
        assert(SnapshotView { sessions: sessions_after(sessions), ..start } =~= start);
    } else {
        let front = sessions.drop_last();
        let last = sessions.last();
        let a = sessions_records(front);
        let b = session_records(last.session);
        let all = sessions_records(sessions);
        assert(all =~= Seq::<RecordView>::empty() + a + b);
        assert(all =~= a + b + Seq::<RecordView>::empty());
        lemma_part_written(all, Seq::empty(), a, b, limits);
        lemma_part_written(all, a, b, Seq::empty(), limits);
        assert forall|i: int| 0 <= i < front.len() implies session_kept(
            #[trigger] front[i],
            limits,
        ) by {
            assert(front[i] == sessions[i]);
        }
        lemma_apply_sessions(start, limits, front);
        let middle = SnapshotView { sessions: sessions_after(front), ..start };
        assert(session_kept(sessions[sessions.len() - 1], limits));
        lemma_apply_session(middle, limits, last);
        lemma_apply_join(a, b, start, middle, limits);
        assert(sessions_after(front).push(recorded_after(last)) =~= sessions_after(sessions));
    }
}

proof fn lemma_apply_wills(start: SnapshotView, limits: Limits, wills: Seq<WillView>, n: int)
    requires
        start.wills.len() == 0,
        0 <= n <= wills.len() <= limits.max_connections,
        forall|i: int| 0 <= i < wills.len() ==> will_kept(#[trigger] wills[i], limits),
        forall|i: int|
            0 <= i < wills.len() ==> writable(#[trigger] will_records(wills)[i], limits),
    ensures
        apply_all(will_records(wills).take(n), start, limits) == Ok::<SnapshotView, Error>(
            SnapshotView { wills: wills_after(wills.take(n)), ..start },
        ),
    decreases n,
{
    let records = will_records(wills);
    if n == 0 {
        assert(wills_after(wills.take(0)) =~= start.wills);
        assert(SnapshotView { wills: wills_after(wills.take(0)), ..start } =~= start);
        assert(records.take(0).len() == 0);
    } else {
        lemma_apply_wills(start, limits, wills, n - 1);
        let will = wills[n - 1];
        assert(records.take(n).drop_last() =~= records.take(n - 1));
        assert(records.take(n).last() == will_record(will));
        assert(writable(records[n - 1], limits));
        lemma_will(will, limits);
        assert(wills_after(wills.take(n - 1)).push(will_after(will)) =~= wills_after(
            wills.take(n),
        ));
        reveal(apply_record);
    }
}

proof fn lemma_apply_retained(
    start: SnapshotView,
    limits: Limits,
    retained: Seq<(Seq<char>, RetainedView)>,
    n: int,
)
    requires
        start.retained.len() == 0,
        0 <= n <= retained.len() <= limits.max_retained_messages,
        distinct(retained, topic_key()),
        forall|i: int|
            0 <= i < retained.len() ==> retained_kept((#[trigger] retained[i]).1, limits)
                && retained[i].0 == retained[i].1.message.topic,
        forall|i: int|
            0 <= i < retained.len() ==> writable(#[trigger] retained_records(retained)[i], limits),
    ensures
        apply_all(retained_records(retained).take(n), start, limits) == Ok::<SnapshotView, Error>(
            SnapshotView { retained: retained.take(n), ..start },
        ),
    decreases n,
{
    let records = retained_records(retained);
    if n == 0 {
        assert(retained.take(0) =~= start.retained);
        assert(SnapshotView { retained: retained.take(0), ..start } =~= start);
        assert(records.take(0).len() == 0);
    } else {
        lemma_apply_retained(start, limits, retained, n - 1);
        let (topic, r) = retained[n - 1];
        let seen = retained.take(n - 1);
        assert(records.take(n).drop_last() =~= records.take(n - 1));
        assert(records.take(n).last() == retained_record(r));
        assert(writable(records[n - 1], limits));
        assert(retained_kept(retained[n - 1].1, limits));
        lemma_retained(r, limits);
        assert forall|i: int| 0 <= i < seen.len() implies !topic_is(topic)(#[trigger] seen[i]) by {
            assert(seen[i] == retained[i]);
            assert(topic_key()(retained[i]) != topic_key()(retained[n - 1]));
        }
        lemma_first_none(seen, topic_is(topic));
        assert(seen.push((topic, r)) =~= retained.take(n));
        reveal(apply_record);
    }
}

proof fn lemma_session_kinds(s: SessionView)
    ensures
        forall|i: int|
            0 <= i < session_records(s).len() ==> (#[trigger] session_records(s)[i]).kind
                != RECORD_RETAINED,
{
}

proof fn lemma_sessions_kinds(sessions: Seq<RecordedView>)
    ensures
        forall|i: int|
            0 <= i < sessions_records(sessions).len() ==> (#[trigger] sessions_records(
                sessions,
            )[i]).kind != RECORD_RETAINED,
    decreases sessions.len(),
{
    if sessions.len() > 0 {
        let a = sessions_records(sessions.drop_last());
        let b = session_records(sessions.last().session);
        lemma_sessions_kinds(sessions.drop_last());
        lemma_session_kinds(sessions.last().session);
        assert forall|i: int| 0 <= i < (a + b).len() implies (#[trigger] (a + b)[i]).kind
            != RECORD_RETAINED by {
            if i < a.len() {
                assert((a + b)[i] == a[i]);
            } else {
                assert((a + b)[i] == b[i - a.len()]);
            }
        }
    }
}

proof fn lemma_apply_snapshot(snapshot: SnapshotView, limits: Limits)
    requires
        snapshot_kept(snapshot, limits),
        write_all(snapshot_records(snapshot), limits) is Ok,
    ensures
        apply_all(
            snapshot_records(snapshot),
            blank(RECOVERY_VERSION, snapshot.generation),
            limits,
        ) == Ok::<SnapshotView, Error>(recovered(snapshot)),
        retained_last(snapshot_records(snapshot)),
{
    let all = snapshot_records(snapshot);
    let a = sessions_records(snapshot.sessions);
    let b = will_records(snapshot.wills);
    let c = retained_records(snapshot.retained);
    let none = Seq::<RecordView>::empty();
    let start = blank(RECOVERY_VERSION, snapshot.generation);
    lemma_written(all, limits);
    assert(all =~= none + a + (b + c));
    assert(all =~= a + b + c);
    assert(all =~= (a + b) + c + none);
    lemma_part_written(all, none, a, b + c, limits);
    lemma_part_written(all, a, b, c, limits);
    lemma_part_written(all, a + b, c, none, limits);
    lemma_apply_sessions(start, limits, snapshot.sessions);
    let s1 = SnapshotView { sessions: sessions_after(snapshot.sessions), ..start };
    lemma_apply_wills(s1, limits, snapshot.wills, snapshot.wills.len() as int);
    assert(b.take(snapshot.wills.len() as int) =~= b);
    assert(snapshot.wills.take(snapshot.wills.len() as int) =~= snapshot.wills);
    let s2 = SnapshotView { wills: wills_after(snapshot.wills), ..s1 };
    lemma_apply_join(a, b, start, s1, limits);
    lemma_apply_retained(s2, limits, snapshot.retained, snapshot.retained.len() as int);
    assert(c.take(snapshot.retained.len() as int) =~= c);
    assert(snapshot.retained.take(snapshot.retained.len() as int) =~= snapshot.retained);
    lemma_apply_join(a + b, c, start, s2, limits);
    assert(SnapshotView { retained: snapshot.retained, ..s2 } =~= recovered(snapshot));
    lemma_sessions_kinds(snapshot.sessions);
    assert forall|i: int, j: int|
        0 <= i < j < all.len() && (#[trigger] all[i]).kind == RECORD_RETAINED implies (
    #[trigger] all[j]).kind == RECORD_RETAINED by {
        if i < a.len() {
            assert(all[i] == a[i]);
        } else if i < a.len() + b.len() {
            assert(all[i] == b[i - a.len()]);
        } else {
            assert(all[j] == c[j - a.len() - b.len()]);
        }
    }
}

/// The parts of an image, where the reader looks for them.
proof fn lemma_image_parts(front: Seq<u8>, out: Seq<u8>, number: nat, bytes: Seq<u8>)
    requires
        front.len() == 16,
        bytes == front + (checksum(front) + (out + trailer(front, out, number))),
        number <= u64::MAX,
        out.len() <= u64::MAX,
    ensures
        bytes.len() == RECOVERY_HEADER_BYTES + out.len() + RECOVERY_TRAILER_BYTES,
        bytes.take(16) == front,
        bytes.subrange(16, 48) == checksum(front),
        bytes.subrange(48, 48 + out.len() as int) == out,
        super::image::trailer_ok(front, out, bytes.skip(48 + out.len() as int), number),
{
    let t = trailer(front, out, number);
    lemma_checksum_len(front);
    lemma_checksum_len(front + out);
    lemma_to_be_len(number, 8);
    lemma_to_be_len(out.len(), 8);
    lemma_power256();
    lemma_be_round_trip(number, 8);
    lemma_be_round_trip(out.len(), 8);
    assert(t.len() == 52);
    assert(bytes.take(16) =~= front);
    assert(bytes.subrange(16, 48) =~= checksum(front));
    assert(bytes.subrange(48, 48 + out.len() as int) =~= out);
    assert(bytes.skip(48 + out.len() as int) =~= t);
    assert(t.take(4) =~= trailer_magic());
    assert(t.subrange(4, 12) =~= be64(number as u64));
    assert(t.subrange(12, 20) =~= be64(out.len() as u64));
    assert(t.skip(20) =~= checksum(front + out));
}

proof fn lemma_count_written(records: Seq<RecordView>, limits: Limits)
    requires
        write_all(records, limits) is Ok,
    ensures
        records.len() <= write_all(records, limits)->Ok_0.len(),
    decreases records.len(),
{
    if records.len() > 0 {
        lemma_count_written(records.drop_last(), limits);
        reveal(write_one);
        reveal(wire);
    }
}

/// A recovery image gives back what was written: every session with its subscriptions, waiting
/// messages and unfinished exchanges, every will and every retained message, in order.
pub proof fn law_recovery_round_trip(snapshot: SnapshotView, limits: Limits)
    requires
        snapshot_kept(snapshot, limits),
        image(snapshot, limits) is Ok,
    ensures
        decode_image(image(snapshot, limits)->Ok_0, limits) == Ok::<ImageView, Error>(
            ImageView::Snapshot(recovered(snapshot)),
        ),
{
    reveal(image);
    reveal(decode_image);
    reveal(decode_records);
    let records = snapshot_records(snapshot);
    let bytes = image(snapshot, limits)->Ok_0;
    let out = write_all(records, limits)->Ok_0;
    let front = prefix(RECOVERY_VERSION, snapshot.generation);
    let start = blank(RECOVERY_VERSION, snapshot.generation);
    let a = recovery_magic();
    let b = be32(RECOVERY_VERSION);
    let c = be64(snapshot.generation);
    lemma_to_be_len(RECOVERY_VERSION as nat, 4);
    lemma_to_be_len(snapshot.generation as nat, 8);
    lemma_power256();
    lemma_be_round_trip(RECOVERY_VERSION as nat, 4);
    lemma_be_round_trip(snapshot.generation as nat, 8);
    assert(front.len() == 16);
    lemma_count_written(records, limits);
    lemma_image_parts(front, out, records.len(), bytes);
    assert(bytes.take(4) =~= a) by {
        assert(bytes.take(4) =~= bytes.take(16).take(4));
        assert(front.take(4) =~= a);
    }
    assert(bytes.subrange(4, 8) =~= b) by {
        assert(bytes.subrange(4, 8) =~= bytes.take(16).subrange(4, 8));
        assert(front.subrange(4, 8) =~= b);
    }
    assert(bytes.subrange(8, 16) =~= c) by {
        assert(bytes.subrange(8, 16) =~= bytes.take(16).subrange(8, 16));
        assert(front.subrange(8, 16) =~= c);
    }
    lemma_apply_snapshot(snapshot, limits);
    lemma_read_all(records, Seq::empty(), limits, start);
    assert(out + Seq::<u8>::empty() =~= out);
    assert(bytes.len() - RECOVERY_TRAILER_BYTES == 48 + out.len() as int);
}

} // verus!
