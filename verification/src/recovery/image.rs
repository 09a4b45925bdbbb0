//! The recovery image as bytes: a header, checksummed records and a trailer over all of them.
use super::encode::{
    encode_inbound, encode_offline, encode_outbound, encode_retained, encode_session_meta,
    encode_subscription, encode_will, inbound_record, offline_record, outbound_record,
    payload_outcome, retained_record, session_record, subscription_record, will_record, RecordView,
};
use super::fields::lemma_join;
use super::record::{apply_record, RECORD_RETAINED};
use super::snapshot::{
    blank, recorded, recorded_views, topic_views, MqttRecoverySnapshot, RecordedView, SnapshotView,
    RECOVERY_VERSION, RECOVERY_VERSION_V1, RECOVERY_VERSION_V2, RECOVERY_VERSION_V3,
};
use crate::broker::model::{RetainedView, WillView};
use crate::broker::state::{will_views, PendingWill, RetainedMessage};
use crate::digest::{sha256, sha256_digest};
use crate::error::Error;
use crate::limits::Limits;
use crate::message::{sat, MessageView};
use crate::number::{
    append_bytes, be, be32, be64, copy_bytes, copy_range, lemma_power256, lemma_to_be_len, put_u32,
    put_u64, read_be, same_bytes,
};
use crate::session::{
    inbound_views, message_views, outbound_views, sub_views, InboundEntry, InboundView,
    OutboundEntry, OutboundView, SessionView, StoredSession, Subscription,
};
use vstd::prelude::*;
use vstd::slice::slice_subrange;

verus! {

pub const RECOVERY_PREFIX_BYTES: usize = 16;

pub const RECOVERY_HEADER_BYTES: usize = 48;

pub const RECORD_HEADER_BYTES: usize = 5;

pub const RECORD_CHECKSUM_BYTES: usize = 32;

pub const RECOVERY_TRAILER_BYTES: usize = 52;

/// The largest image of the first format that is looked at.
pub const LEGACY_V1_RECOVERY_READ_MAX: usize = 1_342_177_280;

pub open spec fn recovery_magic() -> Seq<u8> {
    seq![0x4eu8, 0x42u8, 0x4du8, 0x51u8]
}

pub open spec fn trailer_magic() -> Seq<u8> {
    seq![0x4eu8, 0x45u8, 0x4eu8, 0x44u8]
}

/// The digest of the data as the 32 bytes that are written.
#[verifier::opaque]
pub open spec fn checksum(data: Seq<u8>) -> Seq<u8> {
    Seq::new(32, |i: int| sha256_digest(data)[i])
}

pub proof fn lemma_checksum_len(data: Seq<u8>)
    ensures
        checksum(data).len() == 32,
{
    reveal(checksum);
}

fn checksum_of(data: &[u8]) -> (sum: Vec<u8>)
    ensures
        sum@ == checksum(data@),
        sum@.len() == 32,
{
    let sum = sha256(data);
    proof {
        reveal(checksum);
        assert(sum@ =~= checksum(data@));
    }
    sum
}

/// The longest record, or nothing if the limits are too large to add up.
pub open spec fn record_max(limits: Limits) -> Option<nat> {
    let sum = limits.max_mqtt_packet_size + sat((2 * limits.max_topic_bytes) as nat)
        + limits.max_mqtt_property_bytes + sat((2 * limits.max_client_id_bytes) as nat) + 2_048;
    if sum > usize::MAX {
        None
    } else {
        Some(sum as nat)
    }
}

/// The longest record that is written or read.
pub fn recovery_record_max(limits: &Limits) -> (result: Result<usize, Error>)
    ensures
        match record_max(*limits) {
            Some(maximum) => result is Ok && result->Ok_0 == maximum,
            None => result is Err && result->Err_0 == Error::Configuration,
        },
{
    let topics: usize = limits.max_topic_bytes.saturating_add(limits.max_topic_bytes);
    let clients: usize = limits.max_client_id_bytes.saturating_add(limits.max_client_id_bytes);
    let sum: u128 = limits.max_mqtt_packet_size as u128 + topics as u128
        + limits.max_mqtt_property_bytes as u128 + clients as u128 + 2_048;
    if sum > usize::MAX as u128 {
        Err(Error::Configuration)
    } else {
        Ok(sum as usize)
    }
}

/// A record on the wire.
#[verifier::opaque]
pub open spec fn wire(kind: u8, payload: Seq<u8>) -> Seq<u8> {
    seq![kind] + (be32(payload.len() as u32) + (payload + checksum(payload)))
}

/// One record behind those already written.
#[verifier::opaque]
pub open spec fn write_one(out: Seq<u8>, record: RecordView, limits: Limits) -> Result<
    Seq<u8>,
    Error,
> {
    match record.payload {
        Err(error) => Err(error),
        Ok(payload) => match record_max(limits) {
            None => Err(Error::Configuration),
            Some(maximum) => {
                let written = RECOVERY_HEADER_BYTES + out.len() + RECORD_HEADER_BYTES
                    + payload.len() + RECORD_CHECKSUM_BYTES;
                if payload.len() > maximum || written > usize::MAX || sat(
                    (written + RECOVERY_TRAILER_BYTES) as nat,
                ) > limits.mqtt_recovery_max_bytes || payload.len() > u32::MAX {
                    Err(Error::Overloaded)
                } else {
                    Ok(out + wire(record.kind, payload))
                }
            },
        },
    }
}

/// All records, one behind the other; the first that cannot be written is the error.
pub open spec fn write_all(records: Seq<RecordView>, limits: Limits) -> Result<Seq<u8>, Error>
    decreases records.len(),
{
    if records.len() == 0 {
        Ok(Seq::empty())
    } else {
        match write_all(records.drop_last(), limits) {
            Err(error) => Err(error),
            Ok(out) => write_one(out, records.last(), limits),
        }
    }
}

/// What follows a record that cannot be written makes no difference.
proof fn lemma_write_prefix(records: Seq<RecordView>, more: Seq<RecordView>, limits: Limits)
    requires
        write_all(records, limits) is Err,
    ensures
        write_all(records + more, limits) == write_all(records, limits),
    decreases more.len(),
{
    if more.len() == 0 {
        assert(records + more =~= records);
    } else {
        lemma_write_prefix(records, more.drop_last(), limits);
        assert((records + more).drop_last() =~= records + more.drop_last());
    }
}

pub open spec fn subscription_records(s: Seq<(Seq<char>, Subscription)>) -> Seq<RecordView> {
    Seq::new(s.len(), |i: int| subscription_record(s[i]))
}

pub open spec fn offline_records(s: Seq<MessageView>) -> Seq<RecordView> {
    Seq::new(s.len(), |i: int| offline_record(s[i]))
}

pub open spec fn inbound_records(s: Seq<InboundView>) -> Seq<RecordView> {
    Seq::new(s.len(), |i: int| inbound_record(s[i]))
}

pub open spec fn outbound_records(s: Seq<OutboundView>) -> Seq<RecordView> {
    Seq::new(s.len(), |i: int| outbound_record(s[i]))
}

/// A session followed by what it holds.
pub open spec fn session_records(s: SessionView) -> Seq<RecordView> {
    seq![session_record(s)] + subscription_records(s.subscriptions) + offline_records(s.offline)
        + inbound_records(s.inbound) + outbound_records(s.outbound)
}

pub open spec fn sessions_records(s: Seq<RecordedView>) -> Seq<RecordView>
    decreases s.len(),
{
    if s.len() == 0 {
        Seq::empty()
    } else {
        sessions_records(s.drop_last()) + session_records(s.last().session)
    }
}

pub open spec fn will_records(s: Seq<WillView>) -> Seq<RecordView> {
    Seq::new(s.len(), |i: int| will_record(s[i]))
}

pub open spec fn retained_records(s: Seq<(Seq<char>, RetainedView)>) -> Seq<RecordView> {
    Seq::new(s.len(), |i: int| retained_record(s[i].1))
}

/// The records of an image: sessions, wills, retained messages.
pub open spec fn snapshot_records(snapshot: SnapshotView) -> Seq<RecordView> {
    sessions_records(snapshot.sessions) + will_records(snapshot.wills) + retained_records(
        snapshot.retained,
    )
}

pub open spec fn prefix(version: u32, generation: u64) -> Seq<u8> {
    recovery_magic() + (be32(version) + be64(generation))
}

pub open spec fn trailer(front: Seq<u8>, out: Seq<u8>, number: nat) -> Seq<u8> {
    trailer_magic() + (be64(number as u64) + (be64(out.len() as u64) + checksum(front + out)))
}

/// The bytes of an image, or why it cannot be written.
#[verifier::opaque]
pub open spec fn image(snapshot: SnapshotView, limits: Limits) -> Result<Seq<u8>, Error> {
    let records = snapshot_records(snapshot);
    let front = prefix(RECOVERY_VERSION, snapshot.generation);
    match write_all(records, limits) {
        Err(error) => Err(error),
        Ok(out) => {
            let size = RECOVERY_HEADER_BYTES + out.len() + RECOVERY_TRAILER_BYTES;
            if size > usize::MAX || size > limits.mqtt_recovery_max_bytes {
                Err(Error::Overloaded)
            } else {
                Ok(front + (checksum(front) + (out + trailer(front, out, records.len()))))
            }
        },
    }
}

/// Records being written.
struct RecoveryWriteState {
    limits: Limits,
    output: Vec<u8>,
    record_count: u64,
    records: Ghost<Seq<RecordView>>,
}

impl RecoveryWriteState {
    spec fn wf(self) -> bool {
        &&& write_all(self.records@, self.limits) == Ok::<Seq<u8>, Error>(self.output@)
        &&& self.record_count == self.records@.len()
        &&& self.record_count <= self.output@.len()
    }

    /// What writing more records came to.
    spec fn wrote(self, more: Seq<RecordView>, result: Result<(), Error>, after: RecoveryWriteState) -> bool {
        &&& after.limits == self.limits
        &&& match result {
            Ok(()) => after.wf() && after.records@ == self.records@ + more,
            Err(error) => write_all(self.records@ + more, self.limits) == Err::<Seq<u8>, Error>(
                error,
            ),
        }
    }

    proof fn lemma_failed(self, done: Seq<RecordView>, more: Seq<RecordView>, error: Error)
        requires
            write_all(self.records@ + done, self.limits) == Err::<Seq<u8>, Error>(error),
            done.len() <= more.len(),
            more.take(done.len() as int) == done,
        ensures
            write_all(self.records@ + more, self.limits) == Err::<Seq<u8>, Error>(error),
    {
        lemma_write_prefix(self.records@ + done, more.skip(done.len() as int), self.limits);
        assert(self.records@ + more =~= (self.records@ + done) + more.skip(done.len() as int));
    }

    /// Writes one record.
    fn write_record(&mut self, kind: u8, payload: Result<Vec<u8>, Error>) -> (result: Result<(), Error>)
        requires
            old(self).wf(),
        ensures
            old(self).wrote(
                seq![RecordView { kind, payload: payload_outcome(payload) }],
                result,
                *final(self),
            ),
    {
        let ghost record = RecordView { kind, payload: payload_outcome(payload) };
        let ghost all = self.records@ + seq![record];
        proof {
            reveal(write_one);
            reveal(wire);
            assert(all.drop_last() =~= self.records@);
            assert(all.last() == record);
        }
        let payload = payload?;
        let maximum: usize = recovery_record_max(&self.limits)?;
        let length: usize = payload.len();
        let size: usize = self.output.len();
        let written: u128 = RECOVERY_HEADER_BYTES as u128 + size as u128
            + RECORD_HEADER_BYTES as u128 + length as u128 + RECORD_CHECKSUM_BYTES as u128;
        let end: u128 = written + RECOVERY_TRAILER_BYTES as u128;
        let capped: u128 = if end > usize::MAX as u128 {
            usize::MAX as u128
        } else {
            end
        };
        if length > maximum || written > usize::MAX as u128 || capped
            > self.limits.mqtt_recovery_max_bytes as u128 || length as u64 > u32::MAX as u64 {
            return Err(Error::Overloaded);
        }
        let sum = checksum_of(payload.as_slice());
        let ghost before = self.output@;
        let ghost b = be32(payload@.len() as u32);
        proof {
            lemma_to_be_len(payload@.len(), 4);
        }
        self.output.push(kind);
        put_u32(&mut self.output, length as u32);
        append_bytes(&mut self.output, payload.as_slice());
        append_bytes(&mut self.output, sum.as_slice());
        proof {
            let a = seq![kind];
            assert(before.push(kind) =~= before + a);
            lemma_join(before + a + b, payload@, sum@);
            lemma_join(before + a, b, payload@ + sum@);
            lemma_join(before, a, b + (payload@ + sum@));
        }
        let length_now: usize = self.output.len();
        self.record_count = self.record_count + 1;
        self.records = Ghost(all);
        Ok(())
    }

    fn write_subscriptions(&mut self, entries: &Vec<(String, Subscription)>) -> (result: Result<
        (),
        Error,
    >)
        requires
            old(self).wf(),
        ensures
            old(self).wrote(subscription_records(sub_views(entries@)), result, *final(self)),
    {
        let ghost all = subscription_records(sub_views(entries@));
        let mut at: usize = 0;
        assert(self.records@ + all.take(0) =~= self.records@);
        while at < entries.len()
            invariant
                at <= entries.len(),
                all == subscription_records(sub_views(entries@)),
                self.wf(),
                self.limits == old(self).limits,
                self.records@ == old(self).records@ + all.take(at as int),
            decreases entries.len() - at,
        {
            let ghost before = *self;
            let payload = encode_subscription(entries[at].0.as_str(), entries[at].1);
            let ghost record = all[at as int];
            proof {
                assert(sub_views(entries@)[at as int] == (
                    entries@[at as int].0@,
                    entries@[at as int].1,
                ));
                assert(record == RecordView {
                    kind: super::record::RECORD_SUBSCRIPTION,
                    payload: payload_outcome(payload),
                });
                assert(all.take(at as int + 1) =~= all.take(at as int) + seq![record]);
                assert(before.records@ + seq![record] =~= old(self).records@ + all.take(
                    at as int + 1,
                ));
            }
            if let Err(error) = self.write_record(super::record::RECORD_SUBSCRIPTION, payload) {
                proof {
                    old(self).lemma_failed(all.take(at as int + 1), all, error);
                }
                return Err(error);
            }
            at = at + 1;
        }
        assert(all.take(all.len() as int) =~= all);
        Ok(())
    }

    fn write_offline(&mut self, messages: &Vec<crate::message::BrokerMessage>) -> (result: Result<
        (),
        Error,
    >)
        requires
            old(self).wf(),
        ensures
            old(self).wrote(offline_records(message_views(messages@)), result, *final(self)),
    {
        let ghost all = offline_records(message_views(messages@));
        let mut at: usize = 0;
        assert(self.records@ + all.take(0) =~= self.records@);
        while at < messages.len()
            invariant
                at <= messages.len(),
                all == offline_records(message_views(messages@)),
                self.wf(),
                self.limits == old(self).limits,
                self.records@ == old(self).records@ + all.take(at as int),
            decreases messages.len() - at,
        {
            let ghost before = *self;
            let payload = encode_offline(&messages[at]);
            let ghost record = all[at as int];
            proof {
                assert(message_views(messages@)[at as int] == messages@[at as int]@);
                assert(record == RecordView {
                    kind: super::record::RECORD_OFFLINE,
                    payload: payload_outcome(payload),
                });
                assert(all.take(at as int + 1) =~= all.take(at as int) + seq![record]);
                assert(before.records@ + seq![record] =~= old(self).records@ + all.take(
                    at as int + 1,
                ));
            }
            if let Err(error) = self.write_record(super::record::RECORD_OFFLINE, payload) {
                proof {
                    old(self).lemma_failed(all.take(at as int + 1), all, error);
                }
                return Err(error);
            }
            at = at + 1;
        }
        assert(all.take(all.len() as int) =~= all);
        Ok(())
    }

    fn write_inbound(&mut self, entries: &Vec<InboundEntry>) -> (result: Result<(), Error>)
        requires
            old(self).wf(),
        ensures
            old(self).wrote(inbound_records(inbound_views(entries@)), result, *final(self)),
    {
        let ghost all = inbound_records(inbound_views(entries@));
        let mut at: usize = 0;
        assert(self.records@ + all.take(0) =~= self.records@);
        while at < entries.len()
            invariant
                at <= entries.len(),
                all == inbound_records(inbound_views(entries@)),
                self.wf(),
                self.limits == old(self).limits,
                self.records@ == old(self).records@ + all.take(at as int),
            decreases entries.len() - at,
        {
            let ghost before = *self;
            let payload = encode_inbound(&entries[at]);
            let ghost record = all[at as int];
            proof {
                assert(inbound_views(entries@)[at as int] == entries@[at as int]@);
                assert(record == RecordView {
                    kind: super::record::RECORD_INBOUND_QOS2,
                    payload: payload_outcome(payload),
                });
                assert(all.take(at as int + 1) =~= all.take(at as int) + seq![record]);
                assert(before.records@ + seq![record] =~= old(self).records@ + all.take(
                    at as int + 1,
                ));
            }
            if let Err(error) = self.write_record(super::record::RECORD_INBOUND_QOS2, payload) {
                proof {
                    old(self).lemma_failed(all.take(at as int + 1), all, error);
                }
                return Err(error);
            }
            at = at + 1;
        }
        assert(all.take(all.len() as int) =~= all);
        Ok(())
    }

    fn write_outbound(&mut self, entries: &Vec<OutboundEntry>) -> (result: Result<(), Error>)
        requires
            old(self).wf(),
        ensures
            old(self).wrote(outbound_records(outbound_views(entries@)), result, *final(self)),
    {
        let ghost all = outbound_records(outbound_views(entries@));
        let mut at: usize = 0;
        assert(self.records@ + all.take(0) =~= self.records@);
        while at < entries.len()
            invariant
                at <= entries.len(),
                all == outbound_records(outbound_views(entries@)),
                self.wf(),
                self.limits == old(self).limits,
                self.records@ == old(self).records@ + all.take(at as int),
            decreases entries.len() - at,
        {
            let ghost before = *self;
            let payload = encode_outbound(&entries[at]);
            let ghost record = all[at as int];
            proof {
                assert(outbound_views(entries@)[at as int] == entries@[at as int]@);
                assert(record == RecordView {
                    kind: super::record::RECORD_OUTBOUND,
                    payload: payload_outcome(payload),
                });
                assert(all.take(at as int + 1) =~= all.take(at as int) + seq![record]);
                assert(before.records@ + seq![record] =~= old(self).records@ + all.take(
                    at as int + 1,
                ));
            }
            if let Err(error) = self.write_record(super::record::RECORD_OUTBOUND, payload) {
                proof {
                    old(self).lemma_failed(all.take(at as int + 1), all, error);
                }
                return Err(error);
            }
            at = at + 1;
        }
        assert(all.take(all.len() as int) =~= all);
        Ok(())
    }

    /// Writes a session and what it holds.
    fn write_session(&mut self, session: &StoredSession) -> (result: Result<(), Error>)
        requires
            old(self).wf(),
        ensures
            old(self).wrote(session_records(session@), result, *final(self)),
    {
        let ghost s = session@;
        let ghost a = seq![session_record(s)];
        let ghost b = subscription_records(s.subscriptions);
        let ghost c = offline_records(s.offline);
        let ghost d = inbound_records(s.inbound);
        let ghost e = outbound_records(s.outbound);
        let ghost all = session_records(s);
        let ghost start = self.records@;
        proof {
            assert(all.take(a.len() as int) =~= a);
            assert(all.take((a + b).len() as int) =~= a + b);
            assert(all.take((a + b + c).len() as int) =~= a + b + c);
            assert(all.take((a + b + c + d).len() as int) =~= a + b + c + d);
            assert(start + a + b =~= start + (a + b));
            assert(start + (a + b) + c =~= start + (a + b + c));
            assert(start + (a + b + c) + d =~= start + (a + b + c + d));
            assert(start + (a + b + c + d) + e =~= start + all);
        }
        let payload = encode_session_meta(session);
        if let Err(error) = self.write_record(super::record::RECORD_SESSION, payload) {
            proof {
                old(self).lemma_failed(a, all, error);
            }
            return Err(error);
        }
        if let Err(error) = self.write_subscriptions(&session.subscriptions) {
            proof {
                old(self).lemma_failed(a + b, all, error);
            }
            return Err(error);
        }
        if let Err(error) = self.write_offline(&session.offline) {
            proof {
                old(self).lemma_failed(a + b + c, all, error);
            }
            return Err(error);
        }
        if let Err(error) = self.write_inbound(&session.inbound_qos2) {
            proof {
                old(self).lemma_failed(a + b + c + d, all, error);
            }
            return Err(error);
        }
        self.write_outbound(&session.outbound)
    }

    fn write_sessions(&mut self, sessions: &Vec<StoredSession>) -> (result: Result<(), Error>)
        requires
            old(self).wf(),
        ensures
            old(self).wrote(sessions_records(recorded_views(sessions@)), result, *final(self)),
    {
        let ghost views = recorded_views(sessions@);
        let mut at: usize = 0;
        assert(sessions_records(views.take(0)) =~= Seq::<RecordView>::empty());
        assert(self.records@ + sessions_records(views.take(0)) =~= self.records@);
        while at < sessions.len()
            invariant
                at <= sessions.len(),
                views == recorded_views(sessions@),
                self.wf(),
                self.limits == old(self).limits,
                self.records@ == old(self).records@ + sessions_records(views.take(at as int)),
            decreases sessions.len() - at,
        {
            let ghost before = *self;
            let ghost done = sessions_records(views.take(at as int));
            let ghost more = session_records(sessions@[at as int]@);
            proof {
                assert(views.take(at as int + 1).drop_last() =~= views.take(at as int));
                assert(views.take(at as int + 1).last() == recorded(sessions@[at as int]));
                assert(sessions_records(views.take(at as int + 1)) == done + more);
                assert(before.records@ + more =~= old(self).records@ + (done + more));
            }
            if let Err(error) = self.write_session(&sessions[at]) {
                proof {
                    lemma_sessions_prefix(views, at as int + 1);
                    old(self).lemma_failed(done + more, sessions_records(views), error);
                }
                return Err(error);
            }
            at = at + 1;
        }
        assert(views.take(views.len() as int) =~= views);
        Ok(())
    }

    fn write_wills(&mut self, wills: &Vec<PendingWill>) -> (result: Result<(), Error>)
        requires
            old(self).wf(),
        ensures
            old(self).wrote(will_records(will_views(wills@)), result, *final(self)),
    {
        let ghost all = will_records(will_views(wills@));
        let mut at: usize = 0;
        assert(self.records@ + all.take(0) =~= self.records@);
        while at < wills.len()
            invariant
                at <= wills.len(),
                all == will_records(will_views(wills@)),
                self.wf(),
                self.limits == old(self).limits,
                self.records@ == old(self).records@ + all.take(at as int),
            decreases wills.len() - at,
        {
            let ghost before = *self;
            let payload = encode_will(&wills[at]);
            let ghost record = all[at as int];
            proof {
                assert(will_views(wills@)[at as int] == wills@[at as int]@);
                assert(record == RecordView {
                    kind: super::record::RECORD_PENDING_WILL,
                    payload: payload_outcome(payload),
                });
                assert(all.take(at as int + 1) =~= all.take(at as int) + seq![record]);
                assert(before.records@ + seq![record] =~= old(self).records@ + all.take(
                    at as int + 1,
                ));
            }
            if let Err(error) = self.write_record(super::record::RECORD_PENDING_WILL, payload) {
                proof {
                    old(self).lemma_failed(all.take(at as int + 1), all, error);
                }
                return Err(error);
            }
            at = at + 1;
        }
        assert(all.take(all.len() as int) =~= all);
        Ok(())
    }

    fn write_retained(&mut self, retained: &Vec<(String, RetainedMessage)>) -> (result: Result<
        (),
        Error,
    >)
        requires
            old(self).wf(),
        ensures
            old(self).wrote(retained_records(topic_views(retained@)), result, *final(self)),
    {
        let ghost all = retained_records(topic_views(retained@));
        let mut at: usize = 0;
        assert(self.records@ + all.take(0) =~= self.records@);
        while at < retained.len()
            invariant
                at <= retained.len(),
                all == retained_records(topic_views(retained@)),
                self.wf(),
                self.limits == old(self).limits,
                self.records@ == old(self).records@ + all.take(at as int),
            decreases retained.len() - at,
        {
            let ghost before = *self;
            let payload = encode_retained(&retained[at].1);
            let ghost record = all[at as int];
            proof {
                assert(topic_views(retained@)[at as int].1 == retained@[at as int].1@);
                assert(record == RecordView {
                    kind: RECORD_RETAINED,
                    payload: payload_outcome(payload),
                });
                assert(all.take(at as int + 1) =~= all.take(at as int) + seq![record]);
                assert(before.records@ + seq![record] =~= old(self).records@ + all.take(
                    at as int + 1,
                ));
            }
            if let Err(error) = self.write_record(RECORD_RETAINED, payload) {
                proof {
                    old(self).lemma_failed(all.take(at as int + 1), all, error);
                }
                return Err(error);
            }
            at = at + 1;
        }
        assert(all.take(all.len() as int) =~= all);
        Ok(())
    }
}

proof fn lemma_sessions_prefix(s: Seq<RecordedView>, n: int)
    requires
        0 <= n <= s.len(),
    ensures
        sessions_records(s.take(n)).len() <= sessions_records(s).len(),
        sessions_records(s).take(sessions_records(s.take(n)).len() as int) == sessions_records(
            s.take(n),
        ),
    decreases s.len(),
{
    if n == s.len() {
        assert(s.take(n) =~= s);
        assert(sessions_records(s).take(sessions_records(s).len() as int) =~= sessions_records(s));
    } else {
        lemma_sessions_prefix(s.drop_last(), n);
        assert(s.drop_last().take(n) =~= s.take(n));
        let front = sessions_records(s.drop_last());
        let part = sessions_records(s.take(n));
        assert(sessions_records(s).take(part.len() as int) =~= front.take(part.len() as int));
    }
}

fn put_prefix(version: u32, generation: u64) -> (front: Vec<u8>)
    ensures
        front@ == prefix(version, generation),
{
    let mut front: Vec<u8> = Vec::new();
    front.push(0x4e);
    front.push(0x42);
    front.push(0x4d);
    front.push(0x51);
    assert(front@ =~= recovery_magic());
    put_u32(&mut front, version);
    put_u64(&mut front, generation);
    proof {
        lemma_join(recovery_magic(), be32(version), be64(generation));
    }
    front
}

/// The image of a snapshot, in the order in which the snapshot holds it.
pub fn encode_mqtt_recovery(snapshot: &MqttRecoverySnapshot, limits: &Limits) -> (result: Result<
    Vec<u8>,
    Error,
>)
    ensures
        payload_outcome(result) == image(snapshot@, *limits),
{
    let ghost model = snapshot@;
    let ghost a = sessions_records(model.sessions);
    let ghost b = will_records(model.wills);
    let ghost c = retained_records(model.retained);
    let ghost all = snapshot_records(model);
    proof {
        reveal(image);
    }
    let mut state = RecoveryWriteState {
        limits: *limits,
        output: Vec::new(),
        record_count: 0,
        records: Ghost(Seq::empty()),
    };
    let ghost start = state;
    proof {
        assert(state.output@ =~= Seq::<u8>::empty());
        assert(start.records@ + a =~= a);
        assert(a + b =~= start.records@ + (a + b));
        assert(a + b + c =~= start.records@ + all);
        assert(all.take(a.len() as int) =~= a);
        assert(all.take((a + b).len() as int) =~= a + b);
    }
    if let Err(error) = state.write_sessions(&snapshot.sessions) {
        proof {
            start.lemma_failed(a, all, error);
            assert(start.records@ + all =~= all);
        }
        return Err(error);
    }
    if let Err(error) = state.write_wills(&snapshot.pending_wills) {
        proof {
            start.lemma_failed(a + b, all, error);
            assert(start.records@ + all =~= all);
        }
        return Err(error);
    }
    if let Err(error) = state.write_retained(&snapshot.retained) {
        return Err(error);
    }
    assert(state.records@ == all);
    let length: usize = state.output.len();
    let size: u128 = RECOVERY_HEADER_BYTES as u128 + length as u128
        + RECOVERY_TRAILER_BYTES as u128;
    if size > usize::MAX as u128 || size > limits.mqtt_recovery_max_bytes as u128 {
        return Err(Error::Overloaded);
    }
    let front = put_prefix(RECOVERY_VERSION, snapshot.snapshot_generation);
    let ghost out = state.output@;
    let mut stream = copy_bytes(front.as_slice());
    append_bytes(&mut stream, state.output.as_slice());
    let stream_sum = checksum_of(stream.as_slice());
    let front_sum = checksum_of(front.as_slice());
    let mut output = copy_bytes(front.as_slice());
    append_bytes(&mut output, front_sum.as_slice());
    append_bytes(&mut output, state.output.as_slice());
    let ghost body = output@;
    output.push(0x4e);
    output.push(0x45);
    output.push(0x4e);
    output.push(0x44);
    assert(output@ =~= body + trailer_magic());
    put_u64(&mut output, state.record_count);
    put_u64(&mut output, length as u64);
    append_bytes(&mut output, stream_sum.as_slice());
    proof {
        let m = trailer_magic();
        let n = be64(all.len() as u64);
        let l = be64(out.len() as u64);
        let sum = checksum(front@ + out);
        lemma_join(body, m, n + (l + sum));
        lemma_join(body + m, n, l + sum);
        lemma_join(body + m + n, l, sum);
        lemma_join(front@, front_sum@, out);
        lemma_join(front@, front_sum@ + out, trailer(front@, out, all.len()));
        lemma_join(front_sum@, out, trailer(front@, out, all.len()));
    }
    Ok(output)
}

/// What an image holds: records, or in the first format a document.
#[derive(Debug, PartialEq, Eq)]
pub enum MqttRecoveryImage {
    Snapshot(MqttRecoverySnapshot),
    Legacy { generation: u64, payload: Vec<u8> },
}

pub enum ImageView {
    Snapshot(SnapshotView),
    Legacy { generation: u64, payload: Seq<u8> },
}

impl View for MqttRecoveryImage {
    type V = ImageView;

    open spec fn view(&self) -> ImageView {
        match *self {
            MqttRecoveryImage::Snapshot(snapshot) => ImageView::Snapshot(snapshot@),
            MqttRecoveryImage::Legacy { generation, payload } => ImageView::Legacy {
                generation,
                payload: payload@,
            },
        }
    }
}

/// The document of an image of the first format.
#[verifier::opaque]
pub open spec fn legacy(input: Seq<u8>, generation: u64) -> Result<ImageView, Error> {
    if input.len() < 52 {
        Err(Error::Invalid)
    } else {
        let length = be(input.subrange(16, 20)) as int;
        if length + 52 != input.len() || length > LEGACY_V1_RECOVERY_READ_MAX {
            Err(Error::Invalid)
        } else {
            let payload = input.subrange(20, 20 + length);
            if checksum(payload) != input.subrange(20 + length, 52 + length) {
                Err(Error::Invalid)
            } else {
                Ok(ImageView::Legacy { generation, payload })
            }
        }
    }
}

/// The records of an image, read one after the other. Retained messages come last.
pub open spec fn read_records(
    s: Seq<u8>,
    limits: Limits,
    version: u32,
    snapshot: SnapshotView,
    retained_phase: bool,
    number: nat,
) -> Result<(SnapshotView, nat), Error>
    decreases s.len(),
{
    if s.len() == 0 {
        Ok((snapshot, number))
    } else {
        let kind = s[0];
        let late = kind == RECORD_RETAINED;
        if retained_phase && !late {
            Err(Error::Invalid)
        } else if s.len() < RECORD_HEADER_BYTES {
            // With a trailer behind the records there are bytes to read a length from.
            if version >= RECOVERY_VERSION_V3 && record_max(limits) is None {
                Err(Error::Configuration)
            } else {
                Err(Error::Invalid)
            }
        } else {
            match record_max(limits) {
                None => Err(Error::Configuration),
                Some(maximum) => {
                    let length = be(s.subrange(1, 5)) as int;
                    if length > maximum || length + 37 > s.len() {
                        Err(Error::Invalid)
                    } else {
                        let payload = s.subrange(5, 5 + length);
                        if checksum(payload) != s.subrange(5 + length, 37 + length) {
                            Err(Error::Invalid)
                        } else {
                            match apply_record(snapshot, limits, version, kind, payload) {
                                Err(error) => Err(error),
                                Ok(next) => read_records(
                                    s.skip(37 + length),
                                    limits,
                                    version,
                                    next,
                                    late,
                                    number + 1,
                                ),
                            }
                        }
                    }
                },
            }
        }
    }
}

/// The trailer counts the records and their bytes and seals them all.
pub open spec fn trailer_ok(front: Seq<u8>, region: Seq<u8>, tail: Seq<u8>, number: nat) -> bool {
    &&& tail.take(4) == trailer_magic()
    &&& be(tail.subrange(4, 12)) == number
    &&& be(tail.subrange(12, 20)) == region.len()
    &&& tail.skip(20) == checksum(front + region)
}

#[verifier::opaque]
pub open spec fn decode_records(input: Seq<u8>, limits: Limits, version: u32, generation: u64) -> Result<
    ImageView,
    Error,
> {
    let size = input.len();
    let front = input.take(16);
    if size < RECOVERY_HEADER_BYTES || checksum(front) != input.subrange(16, 48) {
        Err(Error::Invalid)
    } else if version >= RECOVERY_VERSION_V3 && size < RECOVERY_HEADER_BYTES
        + RECOVERY_TRAILER_BYTES {
        Err(Error::Invalid)
    } else {
        let end = if version >= RECOVERY_VERSION_V3 {
            size - RECOVERY_TRAILER_BYTES
        } else {
            size as int
        };
        let region = input.subrange(48, end);
        match read_records(region, limits, version, blank(version, generation), false, 0) {
            Err(error) => Err(error),
            Ok((snapshot, number)) => if version >= RECOVERY_VERSION_V3 && !trailer_ok(
                front,
                region,
                input.skip(end),
                number,
            ) {
                Err(Error::Invalid)
            } else {
                Ok(ImageView::Snapshot(snapshot))
            },
        }
    }
}

/// What an image holds, or why it is refused.
#[verifier::opaque]
pub open spec fn decode_image(input: Seq<u8>, limits: Limits) -> Result<ImageView, Error> {
    if input.len() < RECOVERY_PREFIX_BYTES || input.take(4) != recovery_magic() {
        Err(Error::Invalid)
    } else {
        let version = be(input.subrange(4, 8)) as u32;
        let generation = be(input.subrange(8, 16)) as u64;
        if version == RECOVERY_VERSION_V1 {
            if input.len() > LEGACY_V1_RECOVERY_READ_MAX {
                Err(Error::Invalid)
            } else {
                legacy(input, generation)
            }
        } else if input.len() > limits.mqtt_recovery_max_bytes || version < RECOVERY_VERSION_V2
            || version > RECOVERY_VERSION {
            Err(Error::Invalid)
        } else {
            decode_records(input, limits, version, generation)
        }
    }
}

pub open spec fn image_outcome(result: Result<MqttRecoveryImage, Error>) -> Result<ImageView, Error> {
    match result {
        Ok(image) => Ok(image@),
        Err(error) => Err(error),
    }
}

fn decode_legacy(input: &[u8], generation: u64) -> (result: Result<MqttRecoveryImage, Error>)
    ensures
        image_outcome(result) == legacy(input@, generation),
{
    proof {
        reveal(legacy);
        lemma_power256();
    }
    let size: usize = input.len();
    if size < 52 {
        return Err(Error::Invalid);
    }
    let length: u64 = read_be(input, 16, 4);
    if length as u128 + 52 != size as u128 || length > LEGACY_V1_RECOVERY_READ_MAX as u64 {
        return Err(Error::Invalid);
    }
    let end: usize = size - 32;
    let payload = copy_range(input, 20, end);
    let sum = checksum_of(payload.as_slice());
    if !same_bytes(sum.as_slice(), slice_subrange(input, end, size)) {
        return Err(Error::Invalid);
    }
    Ok(MqttRecoveryImage::Legacy { generation, payload })
}

pub open spec fn records_outcome(result: Result<(MqttRecoverySnapshot, u64), Error>) -> Result<
    (SnapshotView, nat),
    Error,
> {
    match result {
        Ok((snapshot, number)) => Ok((snapshot@, number as nat)),
        Err(error) => Err(error),
    }
}

/// Reads the records between the header and the trailer.
fn decode_region(region: &[u8], limits: &Limits, version: u32, generation: u64) -> (result: Result<
    (MqttRecoverySnapshot, u64),
    Error,
>)
    ensures
        records_outcome(result) == read_records(
            region@,
            *limits,
            version,
            blank(version, generation),
            false,
            0,
        ),
{
    let mut snapshot = MqttRecoverySnapshot {
        format_version: version,
        snapshot_generation: generation,
        sessions: Vec::new(),
        retained: Vec::new(),
        pending_wills: Vec::new(),
    };
    let ghost goal = read_records(
        region@,
        *limits,
        version,
        blank(version, generation),
        false,
        0,
    );
    let size: usize = region.len();
    let mut at: usize = 0;
    let mut retained_phase = false;
    let mut number: u64 = 0;
    proof {
        assert(snapshot@ =~= blank(version, generation));
        assert(region@.skip(0) =~= region@);
    }
    while at < size
        invariant
            at <= size == region@.len(),
            number <= at,
            goal == read_records(
                region@,
                *limits,
                version,
                blank(version, generation),
                false,
                0,
            ),
            goal == read_records(
                region@.skip(at as int),
                *limits,
                version,
                snapshot@,
                retained_phase,
                number as nat,
            ),
        decreases size - at,
    {
        let ghost s = region@.skip(at as int);
        assert(s[0] == region@[at as int]);
        let kind = region[at];
        if retained_phase && kind != RECORD_RETAINED {
            return Err(Error::Invalid);
        }
        let left: usize = size - at;
        if left < RECORD_HEADER_BYTES {
            if version >= RECOVERY_VERSION_V3 {
                if let Err(error) = recovery_record_max(limits) {
                    return Err(error);
                }
            }
            return Err(Error::Invalid);
        }
        let maximum: usize = recovery_record_max(limits)?;
        let length: u64 = read_be(region, at + 1, 4);
        assert(s.subrange(1, 5) =~= region@.subrange(at + 1, at + 5));
        if length > maximum as u64 || length as u128 + 37 > left as u128 {
            return Err(Error::Invalid);
        }
        let body: usize = at + RECORD_HEADER_BYTES;
        let end: usize = body + length as usize;
        let payload = slice_subrange(region, body, end);
        assert(s.subrange(5, 5 + length) =~= payload@);
        let sum = checksum_of(payload);
        assert(s.subrange(5 + length, 37 + length) =~= region@.subrange(end as int, end + 32));
        if !same_bytes(sum.as_slice(), slice_subrange(region, end, end + RECORD_CHECKSUM_BYTES)) {
            return Err(Error::Invalid);
        }
        if let Err(error) = snapshot.decode_record(limits, version, kind, payload) {
            return Err(error);
        }
        retained_phase = kind == RECORD_RETAINED;
        number = number + 1;
        at = end + RECORD_CHECKSUM_BYTES;
        assert(s.skip(37 + length) =~= region@.skip(at as int));
    }
    assert(region@.skip(at as int).len() == 0);
    Ok((snapshot, number))
}

fn check_trailer(front: &[u8], region: &[u8], tail: &[u8], number: u64) -> (valid: bool)
    requires
        tail@.len() == RECOVERY_TRAILER_BYTES,
    ensures
        valid == trailer_ok(front@, region@, tail@, number as nat),
{
    let magic: bool = tail[0] == 0x4e && tail[1] == 0x45 && tail[2] == 0x4e && tail[3] == 0x44;
    proof {
        if magic {
            assert(tail@.take(4) =~= trailer_magic());
        } else {
            assert(tail@.take(4)[0] == tail@[0]);
            assert(tail@.take(4)[1] == tail@[1]);
            assert(tail@.take(4)[2] == tail@[2]);
            assert(tail@.take(4)[3] == tail@[3]);
        }
    }
    let mut stream = copy_bytes(front);
    append_bytes(&mut stream, region);
    let sum = checksum_of(stream.as_slice());
    assert(tail@.skip(20) =~= tail@.subrange(20, 52));
    let length: usize = region.len();
    magic && read_be(tail, 4, 8) == number && read_be(tail, 12, 8) == length as u64 && same_bytes(
        sum.as_slice(),
        slice_subrange(tail, 20, 52),
    )
}

fn decode_sealed(input: &[u8], limits: &Limits, version: u32, generation: u64) -> (result: Result<
    MqttRecoveryImage,
    Error,
>)
    requires
        input@.len() >= RECOVERY_PREFIX_BYTES,
    ensures
        image_outcome(result) == decode_records(input@, *limits, version, generation),
{
    proof {
        reveal(decode_records);
    }
    let size: usize = input.len();
    let front = slice_subrange(input, 0, RECOVERY_PREFIX_BYTES);
    assert(front@ =~= input@.take(16));
    if size < RECOVERY_HEADER_BYTES {
        return Err(Error::Invalid);
    }
    let sum = checksum_of(front);
    if !same_bytes(sum.as_slice(), slice_subrange(input, RECOVERY_PREFIX_BYTES, RECOVERY_HEADER_BYTES)) {
        return Err(Error::Invalid);
    }
    let sealed = version >= RECOVERY_VERSION_V3;
    if sealed && size < RECOVERY_HEADER_BYTES + RECOVERY_TRAILER_BYTES {
        return Err(Error::Invalid);
    }
    let end: usize = if sealed {
        size - RECOVERY_TRAILER_BYTES
    } else {
        size
    };
    let region = slice_subrange(input, RECOVERY_HEADER_BYTES, end);
    let (snapshot, number) = decode_region(region, limits, version, generation)?;
    if sealed {
        let tail = slice_subrange(input, end, size);
        assert(tail@ =~= input@.skip(end as int));
        if !check_trailer(front, region, tail, number) {
            return Err(Error::Invalid);
        }
    }
    Ok(MqttRecoveryImage::Snapshot(snapshot))
}

/// Reads an image.
pub fn decode_mqtt_recovery(input: &[u8], limits: &Limits) -> (result: Result<
    MqttRecoveryImage,
    Error,
>)
    ensures
        image_outcome(result) == decode_image(input@, *limits),
{
    proof {
        reveal(decode_image);
        lemma_power256();
    }
    let size: usize = input.len();
    if size < RECOVERY_PREFIX_BYTES {
        return Err(Error::Invalid);
    }
    let magic: bool = input[0] == 0x4e && input[1] == 0x42 && input[2] == 0x4d && input[3] == 0x51;
    proof {
        if magic {
            assert(input@.take(4) =~= recovery_magic());
        } else {
            assert(input@.take(4)[0] == input@[0]);
            assert(input@.take(4)[1] == input@[1]);
            assert(input@.take(4)[2] == input@[2]);
            assert(input@.take(4)[3] == input@[3]);
        }
        crate::number::lemma_to_be_of_be(input@.subrange(4, 8));
    }
    if !magic {
        return Err(Error::Invalid);
    }
    let version: u32 = read_be(input, 4, 4) as u32;
    let generation: u64 = read_be(input, 8, 8);
    if version == RECOVERY_VERSION_V1 {
        if size > LEGACY_V1_RECOVERY_READ_MAX {
            return Err(Error::Invalid);
        }
        return decode_legacy(input, generation);
    }
    if size > limits.mqtt_recovery_max_bytes || version < RECOVERY_VERSION_V2 || version
        > RECOVERY_VERSION {
        return Err(Error::Invalid);
    }
    decode_sealed(input, limits, version, generation)
}

} // verus!
