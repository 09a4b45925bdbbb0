//! Writing records.
use super::fields::{flag_bytes, lemma_join, name_bytes, put_byte, put_flag, put_string, text_fits};
use super::message::{encode_message, expiry_number, message_body, message_fits};
use super::record::{
    authorization_body, authorization_fits, client_body, device_body, device_fits, inbound_body,
    inbound_stage_byte, interval_body, options_byte, outbound_body, outbound_stage_byte,
    profile_body, publisher_body, resume_body, retained_body, retained_fits, session_body,
    session_fits, subscription_body, will_body, will_fault, RECORD_INBOUND_QOS2, RECORD_OFFLINE,
    RECORD_OUTBOUND, RECORD_PENDING_WILL, RECORD_RETAINED, RECORD_SESSION, RECORD_SUBSCRIPTION,
};
use super::snapshot::auth_after;
use crate::broker::model::{RetainedView, WillView};
use crate::broker::state::{PendingWill, RetainedMessage};
use crate::codec::MqttVersion;
use crate::error::Error;
use crate::identity::{key_option_view, DeviceKey, SessionKey};
use crate::message::{BrokerMessage, MessageView};
use crate::number::{be16, be32, be64, bits_of, put_i64, put_u16, put_u32, put_u64};
use crate::session::{
    auth_view, InboundEntry, InboundStage, InboundView, OutboundEntry, OutboundStage, OutboundView,
    SessionAuthorization, SessionView, StoredSession, Subscription,
};
use vstd::prelude::*;

verus! {

/// A record to be written, or why it cannot be.
pub struct RecordView {
    pub kind: u8,
    pub payload: Result<Seq<u8>, Error>,
}

pub open spec fn body_or_overloaded(fits: bool, body: Seq<u8>) -> Result<Seq<u8>, Error> {
    if fits {
        Ok(body)
    } else {
        Err(Error::Overloaded)
    }
}

pub open spec fn session_record(s: SessionView) -> RecordView {
    RecordView {
        kind: RECORD_SESSION,
        payload: body_or_overloaded(session_fits(s), session_body(s)),
    }
}

pub open spec fn subscription_record(e: (Seq<char>, Subscription)) -> RecordView {
    RecordView {
        kind: RECORD_SUBSCRIPTION,
        payload: body_or_overloaded(text_fits(e.0), subscription_body(e.0, e.1)),
    }
}

pub open spec fn offline_record(m: MessageView) -> RecordView {
    RecordView {
        kind: RECORD_OFFLINE,
        payload: body_or_overloaded(message_fits(m), message_body(m)),
    }
}

pub open spec fn inbound_record(e: InboundView) -> RecordView {
    RecordView {
        kind: RECORD_INBOUND_QOS2,
        payload: body_or_overloaded(message_fits(e.message), inbound_body(e)),
    }
}

pub open spec fn outbound_record(e: OutboundView) -> RecordView {
    RecordView {
        kind: RECORD_OUTBOUND,
        payload: body_or_overloaded(message_fits(e.message), outbound_body(e)),
    }
}

pub open spec fn will_record(w: WillView) -> RecordView {
    RecordView {
        kind: RECORD_PENDING_WILL,
        payload: match will_fault(w) {
            Some(error) => Err(error),
            None => Ok(will_body(w)),
        },
    }
}

pub open spec fn retained_record(r: RetainedView) -> RecordView {
    RecordView {
        kind: RECORD_RETAINED,
        payload: body_or_overloaded(retained_fits(r), retained_body(r)),
    }
}

pub open spec fn payload_outcome(result: Result<Vec<u8>, Error>) -> Result<Seq<u8>, Error> {
    match result {
        Ok(payload) => Ok(payload@),
        Err(error) => Err(error),
    }
}

fn put_device(output: &mut Vec<u8>, device: &DeviceKey) -> (result: Result<(), Error>)
    ensures
        result is Ok <==> device_fits(device@),
        result is Ok ==> final(output)@ == old(output)@ + device_body(device@),
        result is Err ==> result->Err_0 == Error::Overloaded,
{
    let ghost before = output@;
    let ghost a = name_bytes(device@.tenant);
    let ghost b = name_bytes(device@.product);
    let ghost c = name_bytes(device@.device);
    put_string(output, device.tenant_id.as_str())?;
    put_string(output, device.product_id.as_str())?;
    put_string(output, device.device_id.as_str())?;
    proof {
        reveal(device_body);
        lemma_join(before, a, b + c);
        lemma_join(before + a, b, c);
    }
    Ok(())
}

fn put_authorization(output: &mut Vec<u8>, authorization: &Option<SessionAuthorization>) -> (result:
    Result<(), Error>)
    ensures
        result is Ok <==> authorization_fits(auth_view(*authorization)),
        result is Ok ==> final(output)@ == old(output)@ + authorization_body(
            auth_view(*authorization),
        ),
        result is Err ==> result->Err_0 == Error::Overloaded,
{
    proof {
        reveal(authorization_body);
    }
    let ghost before = output@;
    let ghost model = auth_after(auth_view(*authorization));
    if let Some(profile) = authorization {
        if let (Some(codec_id), Some(codec_version)) = (&profile.codec_id, profile.codec_version) {
            let ghost x = profile@;
            let ghost a = be32(x.credential_version);
            let ghost b = be64(x.auth_generation);
            let ghost c = flag_bytes(x.permissions.publish);
            let ghost d = flag_bytes(x.permissions.commands);
            let ghost e = name_bytes(x.codec_id->0);
            let ghost f = be16(x.codec_version->0);
            let ghost t = flag_bytes(true);
            assert(model == Some(x));
            put_flag(output, true);
            put_u32(output, profile.credential_version);
            put_u64(output, profile.auth_generation);
            put_flag(output, profile.permissions.publish);
            put_flag(output, profile.permissions.commands);
            put_string(output, codec_id.as_str())?;
            put_u16(output, codec_version);
            proof {
                lemma_join(before, t, profile_body(x));
                lemma_join(before + t, a, b + (c + (d + (e + f))));
                lemma_join(before + t + a, b, c + (d + (e + f)));
                lemma_join(before + t + a + b, c, d + (e + f));
                lemma_join(before + t + a + b + c, d, e + f);
                lemma_join(before + t + a + b + c + d, e, f);
            }
            return Ok(());
        }
    }
    assert(model is None);
    put_flag(output, false);
    Ok(())
}

/// The record of a session itself.
pub fn encode_session_meta(session: &StoredSession) -> (result: Result<Vec<u8>, Error>)
    ensures
        payload_outcome(result) == session_record(session@).payload,
{
    proof {
        reveal(session_body);
    }
    let ghost s = session@;
    let ghost a = device_body(s.key.device);
    let ghost b = name_bytes(s.key.client_id);
    let ghost c = be64(s.incarnation);
    let ghost d = authorization_body(s.authorization);
    let ghost e1 = be16(s.next_packet_id);
    let ghost e2 = be64(bits_of(s.last_seen_ms));
    let ghost f1 = seq![
        if s.version == MqttVersion::V311 {
            4u8
        } else {
            5u8
        },
    ];
    let ghost f2 = be32(s.session_expiry_interval);
    let ghost f3 = be64(bits_of(expiry_number(s.expires_at_ms)));
    let ghost f = f1 + (f2 + f3);
    let mut output: Vec<u8> = Vec::new();
    let ghost none = output@;
    put_device(&mut output, &session.key.device)?;
    put_string(&mut output, session.key.client_id.as_str())?;
    put_u64(&mut output, session.incarnation);
    put_authorization(&mut output, &session.authorization)?;
    put_u16(&mut output, session.next_packet_id);
    put_i64(&mut output, session.last_seen_ms);
    put_byte(
        &mut output,
        match session.version {
            MqttVersion::V311 => 4,
            MqttVersion::V5 => 5,
        },
    );
    put_u32(&mut output, session.session_expiry_interval);
    put_i64(
        &mut output,
        match session.expires_at_ms {
            Some(value) => value,
            None => -1,
        },
    );
    proof {
        let e = e1 + e2;
        lemma_join(none, a, b + (c + (d + (e + f))));
        lemma_join(none + a, b, c + (d + (e + f)));
        lemma_join(none + a + b, c, d + (e + f));
        lemma_join(none + a + b + c, d, e + f);
        lemma_join(none + a + b + c + d, e, f);
        lemma_join(none + a + b + c + d, e1, e2);
        lemma_join(none + a + b + c + d + e, f1, f2 + f3);
        lemma_join(none + a + b + c + d + e + f1, f2, f3);
        assert(none + session_body(s) =~= session_body(s));
    }
    Ok(output)
}

pub fn encode_subscription(filter: &str, subscription: Subscription) -> (result: Result<Vec<u8>, Error>)
    ensures
        payload_outcome(result) == subscription_record((filter@, subscription)).payload,
{
    let mut output: Vec<u8> = Vec::new();
    let ghost none = output@;
    put_string(&mut output, filter)?;
    put_byte(&mut output, subscription.qos);
    let local: u8 = if subscription.no_local {
        4
    } else {
        0
    };
    let published: u8 = if subscription.retain_as_published {
        8
    } else {
        0
    };
    let handling: u8 = subscription.retain_handling % 16 * 16;
    let options: u8 = local + published + handling;
    put_byte(&mut output, options);
    proof {
        let a = name_bytes(filter@);
        let b = seq![subscription.qos];
        let c = seq![options_byte(subscription)];
        lemma_join(none + a, b, c);
        assert(none + a =~= a);
    }
    Ok(output)
}

pub fn encode_offline(message: &BrokerMessage) -> (result: Result<Vec<u8>, Error>)
    ensures
        payload_outcome(result) == offline_record(message@).payload,
{
    let mut output: Vec<u8> = Vec::new();
    let ghost none = output@;
    encode_message(&mut output, message)?;
    assert(none + message_body(message@) =~= message_body(message@));
    Ok(output)
}

pub fn encode_inbound(entry: &InboundEntry) -> (result: Result<Vec<u8>, Error>)
    ensures
        payload_outcome(result) == inbound_record(entry@).payload,
{
    let mut output: Vec<u8> = Vec::new();
    let ghost none = output@;
    put_u16(&mut output, entry.packet_id);
    let stage: u8 = match entry.state.stage_now() {
        InboundStage::EventAccepted => 1,
        _ => 0,
    };
    put_byte(&mut output, stage);
    encode_message(&mut output, entry.state.message())?;
    proof {
        let e = entry@;
        let a = be16(e.packet_id);
        let b = seq![inbound_stage_byte(e.stage)];
        let c = message_body(e.message);
        lemma_join(none + a, b, c);
        assert(none + a =~= a);
    }
    Ok(output)
}

pub fn encode_outbound(entry: &OutboundEntry) -> (result: Result<Vec<u8>, Error>)
    ensures
        payload_outcome(result) == outbound_record(entry@).payload,
{
    let mut output: Vec<u8> = Vec::new();
    let ghost none = output@;
    put_u16(&mut output, entry.packet_id);
    let stage: u8 = match entry.state.stage() {
        OutboundStage::Puback => 0,
        OutboundStage::Pubrec => 1,
        OutboundStage::Pubcomp => 2,
    };
    put_byte(&mut output, stage);
    put_flag(&mut output, entry.started);
    encode_message(&mut output, entry.state.message())?;
    proof {
        let e = entry@;
        let a = be16(e.packet_id);
        let b = seq![outbound_stage_byte(e.stage)];
        let c = flag_bytes(e.started);
        let d = message_body(e.message);
        lemma_join(none + a, b, c + d);
        lemma_join(none + a + b, c, d);
        assert(none + a =~= a);
    }
    Ok(output)
}

fn put_resume(output: &mut Vec<u8>, will: &PendingWill) -> (result: Result<(), Error>)
    ensures
        match result {
            Ok(()) => will@.cancel_on_resume matches Some((key, incarnation)) ==> text_fits(
                key.client_id,
            ) && will@.due_at_ms is Some,
            Err(error) => will@.cancel_on_resume matches Some((key, incarnation)) && (if !text_fits(
                key.client_id,
            ) {
                error == Error::Overloaded
            } else {
                will@.due_at_ms is None && error == Error::Invalid
            }),
        },
        result is Ok ==> final(output)@ == old(output)@ + resume_body(will@),
{
    let ghost before = output@;
    match &will.cancel_on_resume {
        None => {
            put_flag(output, false);
            Ok(())
        },
        Some(entry) => {
            let ghost t = flag_bytes(true);
            let ghost a = name_bytes(entry.0@.client_id);
            let ghost b = be64(entry.1);
            put_flag(output, true);
            put_string(output, entry.0.client_id.as_str())?;
            put_u64(output, entry.1);
            let due: i64 = match will.due_at_ms {
                Some(due) => due,
                None => return Err(Error::Invalid),
            };
            put_i64(output, due);
            proof {
                let c = be64(bits_of(due));
                lemma_join(before, t, a + (b + c));
                lemma_join(before + t, a, b + c);
                lemma_join(before + t + a, b, c);
            }
            Ok(())
        },
    }
}

fn put_interval(output: &mut Vec<u8>, interval: Option<u32>)
    ensures
        final(output)@ == old(output)@ + interval_body(interval),
{
    let ghost before = output@;
    match interval {
        None => put_flag(output, false),
        Some(value) => {
            put_flag(output, true);
            put_u32(output, value);
            proof {
                lemma_join(before, flag_bytes(true), be32(value));
            }
        },
    }
}

fn put_client(output: &mut Vec<u8>, origin: &Option<SessionKey>) -> (result: Result<(), Error>)
    ensures
        result is Ok <==> (key_option_view(*origin) matches Some(key) ==> text_fits(key.client_id)),
        result is Ok ==> final(output)@ == old(output)@ + client_body(key_option_view(*origin)),
        result is Err ==> result->Err_0 == Error::Overloaded,
{
    let ghost before = output@;
    match origin {
        None => put_flag(output, false),
        Some(key) => {
            put_flag(output, true);
            put_string(output, key.client_id.as_str())?;
            proof {
                lemma_join(before, flag_bytes(true), name_bytes(key@.client_id));
            }
        },
    }
    Ok(())
}

pub fn encode_will(will: &PendingWill) -> (result: Result<Vec<u8>, Error>)
    ensures
        payload_outcome(result) == will_record(will@).payload,
{
    proof {
        reveal(will_fault);
        reveal(will_body);
    }
    let ghost w = will@;
    let mut output: Vec<u8> = Vec::new();
    let ghost none = output@;
    put_device(&mut output, &will.owner)?;
    encode_message(&mut output, &will.message)?;
    put_resume(&mut output, will)?;
    put_interval(&mut output, will.message_expiry_interval);
    put_client(&mut output, &will.origin)?;
    proof {
        let a = device_body(w.owner);
        let b = message_body(w.message);
        let c = resume_body(w);
        let d = interval_body(w.message_expiry_interval);
        let e = client_body(w.origin);
        lemma_join(none, a, b + (c + (d + e)));
        lemma_join(none + a, b, c + (d + e));
        lemma_join(none + a + b, c, d + e);
        lemma_join(none + a + b + c, d, e);
        assert(none + will_body(w) =~= will_body(w));
    }
    Ok(output)
}

fn put_publisher(output: &mut Vec<u8>, origin: &Option<SessionKey>) -> (result: Result<(), Error>)
    ensures
        result is Ok <==> (key_option_view(*origin) matches Some(key) ==> device_fits(key.device)
            && text_fits(key.client_id)),
        result is Ok ==> final(output)@ == old(output)@ + publisher_body(key_option_view(*origin)),
        result is Err ==> result->Err_0 == Error::Overloaded,
{
    let ghost before = output@;
    match origin {
        None => put_flag(output, false),
        Some(key) => {
            put_flag(output, true);
            put_device(output, &key.device)?;
            put_string(output, key.client_id.as_str())?;
            proof {
                let t = flag_bytes(true);
                let a = device_body(key@.device);
                let b = name_bytes(key@.client_id);
                lemma_join(before, t, a + b);
                lemma_join(before + t, a, b);
            }
        },
    }
    Ok(())
}

pub fn encode_retained(retained: &RetainedMessage) -> (result: Result<Vec<u8>, Error>)
    ensures
        payload_outcome(result) == retained_record(retained@).payload,
{
    proof {
        reveal(retained_body);
    }
    let ghost r = retained@;
    let mut output: Vec<u8> = Vec::new();
    let ghost none = output@;
    put_string(&mut output, retained.tenant_id.as_str())?;
    encode_message(&mut output, &retained.message)?;
    put_publisher(&mut output, &retained.origin)?;
    proof {
        let a = name_bytes(r.tenant);
        let b = message_body(r.message);
        let c = publisher_body(r.origin);
        lemma_join(none + a, b, c);
        assert(none + a =~= a);
    }
    Ok(output)
}

} // verus!
