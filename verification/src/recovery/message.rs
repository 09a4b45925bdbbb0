//! Messages as records hold them.
use super::fields::{
    data_bytes, flag_bytes, get_data, get_flag, get_i64, get_name, get_optional_data,
    get_optional_text, get_pairs, get_u16, get_u8, lemma_get_data, lemma_get_flag, lemma_get_i64,
    lemma_get_name, lemma_get_optional_data, lemma_get_optional_text, lemma_get_pairs,
    lemma_get_u16, lemma_get_u8, lemma_join, name_bytes, optional_data_bytes, optional_name_bytes,
    pair_list_bytes, pairs_fit, put_byte, put_bytes, put_flag, put_optional_bytes,
    put_optional_string, put_pairs, put_string, reads, text_fits, Parsed, RecordReader,
};
use crate::codec::common::{topic_valid, valid_topic};
use crate::error::Error;
use crate::limits::Limits;
use crate::message::{no_props, BrokerMessage, MessageView, PropsView, PublishProperties};
use crate::number::{be16, be64, bits_of, put_i64, put_u16};
use crate::text::{permitted_text, text_bytes};
use vstd::prelude::*;

verus! {

/// The first format with properties.
pub const PROPERTIES_SINCE: u32 = 4;

pub open spec fn format_of(value: u8) -> Result<Option<u8>, Error> {
    if value <= 1 {
        Ok(Some(value))
    } else if value == 2 {
        Ok(None)
    } else {
        Err(Error::Invalid)
    }
}

pub open spec fn expiry_of(value: i64) -> Result<Option<i64>, Error> {
    if value == -1 {
        Ok(None)
    } else if value >= 0 {
        Ok(Some(value))
    } else {
        Err(Error::Invalid)
    }
}

#[verifier::opaque]
pub open spec fn get_props_tail(
    s: Seq<u8>,
    limits: Limits,
    payload_format: Option<u8>,
    expires_at_ms: Option<i64>,
) -> Parsed<PropsView> {
    match get_optional_text(s, limits.max_mqtt_content_type_bytes as nat) {
        Err(error) => Err(error),
        Ok((content_type, s)) => match get_optional_text(
            s,
            limits.max_mqtt_response_topic_bytes as nat,
        ) {
            Err(error) => Err(error),
            Ok((response_topic, s)) => match get_optional_data(
                s,
                limits.max_mqtt_correlation_data_bytes as nat,
            ) {
                Err(error) => Err(error),
                Ok((correlation_data, s)) => match get_u16(s) {
                    Err(error) => Err(error),
                    Ok((number, s)) => if number > limits.max_mqtt_user_properties {
                        Err(Error::Overloaded)
                    } else {
                        match get_pairs(
                            s,
                            number as nat,
                            limits.max_mqtt_user_property_bytes as nat,
                        ) {
                            Err(error) => Err(error),
                            Ok((user_properties, s)) => Ok(
                                (
                                    PropsView {
                                        payload_format,
                                        expires_at_ms,
                                        content_type,
                                        response_topic,
                                        correlation_data,
                                        user_properties,
                                    },
                                    s,
                                ),
                            ),
                        }
                    },
                },
            },
        },
    }
}

#[verifier::opaque]
pub open spec fn get_props(s: Seq<u8>, limits: Limits) -> Parsed<PropsView> {
    match get_u8(s) {
        Err(error) => Err(error),
        Ok((format, s)) => match format_of(format) {
            Err(error) => Err(error),
            Ok(payload_format) => match get_i64(s) {
                Err(error) => Err(error),
                Ok((expiry, s)) => match expiry_of(expiry) {
                    Err(error) => Err(error),
                    Ok(expires_at_ms) => get_props_tail(s, limits, payload_format, expires_at_ms),
                },
            },
        },
    }
}

/// A message in a record of the given format.
#[verifier::opaque]
pub open spec fn get_message(s: Seq<u8>, limits: Limits, version: u32) -> Parsed<MessageView> {
    match get_name(s, limits.max_topic_bytes as nat) {
        Err(error) => Err(error),
        Ok((topic, s)) => match get_data(s, limits.max_mqtt_packet_size as nat) {
            Err(error) => Err(error),
            Ok((payload, s)) => match get_u8(s) {
                Err(error) => Err(error),
                Ok((qos, s)) => match get_flag(s) {
                    Err(error) => Err(error),
                    Ok((retain, s)) => if qos > 2 || !topic_valid(topic, limits, false) {
                        Err(Error::Invalid)
                    } else if version >= PROPERTIES_SINCE {
                        match get_props(s, limits) {
                            Err(error) => Err(error),
                            Ok((properties, s)) => Ok(
                                (MessageView { topic, payload, qos, retain, properties }, s),
                            ),
                        }
                    } else {
                        Ok(
                            (
                                MessageView {
                                    topic,
                                    payload,
                                    qos,
                                    retain,
                                    properties: no_props(),
                                },
                                s,
                            ),
                        )
                    },
                },
            },
        },
    }
}

pub open spec fn format_byte(payload_format: Option<u8>) -> u8 {
    match payload_format {
        Some(value) => value,
        None => 2,
    }
}

pub open spec fn expiry_number(expires_at_ms: Option<i64>) -> i64 {
    match expires_at_ms {
        Some(value) => value,
        None => -1i64,
    }
}

pub open spec fn props_tail_body(p: PropsView) -> Seq<u8> {
    optional_name_bytes(p.content_type) + (optional_name_bytes(p.response_topic) + (
    optional_data_bytes(p.correlation_data) + (be16(p.user_properties.len() as u16)
        + pair_list_bytes(p.user_properties))))
}

pub open spec fn props_body(p: PropsView) -> Seq<u8> {
    seq![format_byte(p.payload_format)] + (be64(bits_of(expiry_number(p.expires_at_ms)))
        + props_tail_body(p))
}

/// A message as a record of the current format holds it.
#[verifier::opaque]
pub open spec fn message_body(m: MessageView) -> Seq<u8> {
    name_bytes(m.topic) + (data_bytes(m.payload) + (seq![m.qos] + (flag_bytes(m.retain)
        + props_body(m.properties))))
}

/// Every length of the message fits its field.
#[verifier::opaque]
pub open spec fn message_fits(m: MessageView) -> bool {
    &&& text_fits(m.topic)
    &&& m.payload.len() <= u32::MAX
    &&& m.properties.content_type matches Some(t) ==> text_fits(t)
    &&& m.properties.response_topic matches Some(t) ==> text_fits(t)
    &&& m.properties.correlation_data matches Some(d) ==> d.len() <= u32::MAX
    &&& m.properties.user_properties.len() <= u16::MAX
    &&& pairs_fit(m.properties.user_properties)
}

/// The message is one that a record gives back.
#[verifier::opaque]
pub open spec fn message_kept(m: MessageView, limits: Limits) -> bool {
    let p = m.properties;
    &&& 0 < text_bytes(m.topic) <= limits.max_topic_bytes
    &&& topic_valid(m.topic, limits, false)
    &&& m.payload.len() <= limits.max_mqtt_packet_size
    &&& m.qos <= 2
    &&& p.payload_format matches Some(value) ==> value <= 1
    &&& p.expires_at_ms matches Some(value) ==> value >= 0
    &&& p.content_type matches Some(t) ==> permitted_text(t) && text_bytes(t)
        <= limits.max_mqtt_content_type_bytes
    &&& p.response_topic matches Some(t) ==> permitted_text(t) && text_bytes(t)
        <= limits.max_mqtt_response_topic_bytes
    &&& p.correlation_data matches Some(d) ==> d.len() <= limits.max_mqtt_correlation_data_bytes
    &&& p.user_properties.len() <= limits.max_mqtt_user_properties
    &&& forall|i: int|
        0 <= i < p.user_properties.len() ==> {
            &&& permitted_text((#[trigger] p.user_properties[i]).0)
            &&& permitted_text(p.user_properties[i].1)
            &&& text_bytes(p.user_properties[i].0) <= limits.max_mqtt_user_property_bytes
            &&& text_bytes(p.user_properties[i].1) <= limits.max_mqtt_user_property_bytes
        }
}

proof fn lemma_props_tail(m: MessageView, rest: Seq<u8>, limits: Limits)
    requires
        message_fits(m),
        message_kept(m, limits),
    ensures
        get_props_tail(
            props_tail_body(m.properties) + rest,
            limits,
            m.properties.payload_format,
            m.properties.expires_at_ms,
        ) == Ok::<(PropsView, Seq<u8>), Error>((m.properties, rest)),
{
    reveal(message_fits);
    reveal(message_kept);
    reveal(get_props_tail);
    let p = m.properties;
    let a = optional_name_bytes(p.content_type);
    let b = optional_name_bytes(p.response_topic);
    let c = optional_data_bytes(p.correlation_data);
    let d = be16(p.user_properties.len() as u16);
    let e = pair_list_bytes(p.user_properties);
    lemma_join(a, b + (c + (d + e)), rest);
    lemma_join(b, c + (d + e), rest);
    lemma_join(c, d + e, rest);
    lemma_join(d, e, rest);
    lemma_get_optional_text(
        p.content_type,
        b + (c + (d + (e + rest))),
        limits.max_mqtt_content_type_bytes as nat,
    );
    lemma_get_optional_text(
        p.response_topic,
        c + (d + (e + rest)),
        limits.max_mqtt_response_topic_bytes as nat,
    );
    lemma_get_optional_data(
        p.correlation_data,
        d + (e + rest),
        limits.max_mqtt_correlation_data_bytes as nat,
    );
    lemma_get_u16(p.user_properties.len() as u16, e + rest);
    lemma_get_pairs(p.user_properties, rest, limits.max_mqtt_user_property_bytes as nat);
}

proof fn lemma_props(m: MessageView, rest: Seq<u8>, limits: Limits)
    requires
        message_fits(m),
        message_kept(m, limits),
    ensures
        get_props(props_body(m.properties) + rest, limits) == Ok::<(PropsView, Seq<u8>), Error>(
            (m.properties, rest),
        ),
{
    lemma_props_tail(m, rest, limits);
    reveal(message_kept);
    reveal(get_props);
    let p = m.properties;
    let a = seq![format_byte(p.payload_format)];
    let b = be64(bits_of(expiry_number(p.expires_at_ms)));
    let c = props_tail_body(p);
    lemma_join(a, b + c, rest);
    lemma_join(b, c, rest);
    lemma_get_u8(format_byte(p.payload_format), b + (c + rest));
    lemma_get_i64(expiry_number(p.expires_at_ms), c + rest);
}

/// A message that was written is read back.
pub proof fn law_message_round_trip(m: MessageView, rest: Seq<u8>, limits: Limits, version: u32)
    requires
        message_fits(m),
        message_kept(m, limits),
        version >= PROPERTIES_SINCE,
    ensures
        get_message(message_body(m) + rest, limits, version) == Ok::<(MessageView, Seq<u8>), Error>(
            (m, rest),
        ),
{
    lemma_props(m, rest, limits);
    reveal(message_fits);
    reveal(message_kept);
    reveal(get_message);
    reveal(message_body);
    let a = name_bytes(m.topic);
    let b = data_bytes(m.payload);
    let c = seq![m.qos];
    let d = flag_bytes(m.retain);
    let e = props_body(m.properties);
    lemma_join(a, b + (c + (d + e)), rest);
    lemma_join(b, c + (d + e), rest);
    lemma_join(c, d + e, rest);
    lemma_join(d, e, rest);
    lemma_get_name(m.topic, b + (c + (d + (e + rest))), limits.max_topic_bytes as nat);
    lemma_get_data(m.payload, c + (d + (e + rest)), limits.max_mqtt_packet_size as nat);
    lemma_get_u8(m.qos, d + (e + rest));
    lemma_get_flag(m.retain, e + rest);
}

pub open spec fn props_outcome(result: Result<PublishProperties, Error>) -> Result<PropsView, Error> {
    match result {
        Ok(properties) => Ok(properties@),
        Err(error) => Err(error),
    }
}

pub open spec fn message_outcome(result: Result<BrokerMessage, Error>) -> Result<
    MessageView,
    Error,
> {
    match result {
        Ok(message) => Ok(message@),
        Err(error) => Err(error),
    }
}

fn decode_props_tail(
    reader: &mut RecordReader<'_>,
    limits: &Limits,
    payload_format: Option<u8>,
    expires_at_ms: Option<i64>,
) -> (result: Result<PublishProperties, Error>)
    requires
        old(reader).ok(),
    ensures
        reads(
            get_props_tail(old(reader).rest(), *limits, payload_format, expires_at_ms),
            props_outcome(result),
            *final(reader),
        ),
{
    proof {
        reveal(get_props_tail);
    }
    let content_type = reader.optional_string(limits.max_mqtt_content_type_bytes)?;
    let response_topic = reader.optional_string(limits.max_mqtt_response_topic_bytes)?;
    let correlation_data = reader.optional_bytes(limits.max_mqtt_correlation_data_bytes)?;
    let number: u16 = reader.u16()?;
    if number as usize > limits.max_mqtt_user_properties {
        return Err(Error::Overloaded);
    }
    let user_properties = reader.pairs(number as usize, limits.max_mqtt_user_property_bytes)?;
    Ok(
        PublishProperties {
            payload_format,
            expires_at_ms,
            content_type,
            response_topic,
            correlation_data,
            user_properties,
        },
    )
}

fn decode_props(reader: &mut RecordReader<'_>, limits: &Limits) -> (result: Result<
    PublishProperties,
    Error,
>)
    requires
        old(reader).ok(),
    ensures
        reads(get_props(old(reader).rest(), *limits), props_outcome(result), *final(reader)),
{
    proof {
        reveal(get_props);
    }
    let format: u8 = reader.u8()?;
    let payload_format = if format <= 1 {
        Some(format)
    } else if format == 2 {
        None
    } else {
        return Err(Error::Invalid);
    };
    let expiry: i64 = reader.i64()?;
    let expires_at_ms = if expiry == -1 {
        None
    } else if expiry >= 0 {
        Some(expiry)
    } else {
        return Err(Error::Invalid);
    };
    decode_props_tail(reader, limits, payload_format, expires_at_ms)
}

/// Reads a message from a record of the given format.
pub fn decode_message(reader: &mut RecordReader<'_>, limits: &Limits, version: u32) -> (result: Result<
    BrokerMessage,
    Error,
>)
    requires
        old(reader).ok(),
    ensures
        reads(
            get_message(old(reader).rest(), *limits, version),
            message_outcome(result),
            *final(reader),
        ),
{
    proof {
        reveal(get_message);
    }
    let topic = reader.string(limits.max_topic_bytes)?;
    let payload = reader.bytes(limits.max_mqtt_packet_size)?;
    let qos: u8 = reader.u8()?;
    let retain = reader.flag()?;
    if qos > 2 || !valid_topic(topic.as_str(), limits, false) {
        return Err(Error::Invalid);
    }
    let properties = if version >= PROPERTIES_SINCE {
        decode_props(reader, limits)?
    } else {
        PublishProperties::default()
    };
    Ok(BrokerMessage { topic, payload, qos, retain, properties })
}

fn encode_props_tail(output: &mut Vec<u8>, properties: &PublishProperties) -> (result: Result<
    (),
    Error,
>)
    ensures
        result is Ok <==> {
            let p = properties@;
            &&& p.content_type matches Some(t) ==> text_fits(t)
            &&& p.response_topic matches Some(t) ==> text_fits(t)
            &&& p.correlation_data matches Some(d) ==> d.len() <= u32::MAX
            &&& p.user_properties.len() <= u16::MAX
            &&& pairs_fit(p.user_properties)
        },
        result is Ok ==> final(output)@ == old(output)@ + props_tail_body(properties@),
        result is Err ==> result->Err_0 == Error::Overloaded,
{
    let ghost p = properties@;
    let ghost before = output@;
    let ghost a = optional_name_bytes(p.content_type);
    let ghost b = optional_name_bytes(p.response_topic);
    let ghost c = optional_data_bytes(p.correlation_data);
    let ghost d = be16(p.user_properties.len() as u16);
    let ghost e = pair_list_bytes(p.user_properties);
    put_optional_string(output, &properties.content_type)?;
    put_optional_string(output, &properties.response_topic)?;
    put_optional_bytes(output, &properties.correlation_data)?;
    assert(p.user_properties.len() == properties.user_properties@.len());
    let number: usize = properties.user_properties.len();
    if number > u16::MAX as usize {
        return Err(Error::Overloaded);
    }
    put_u16(output, number as u16);
    put_pairs(output, &properties.user_properties)?;
    proof {
        lemma_join(before, a, b + (c + (d + e)));
        lemma_join(before + a, b, c + (d + e));
        lemma_join(before + a + b, c, d + e);
        lemma_join(before + a + b + c, d, e);
    }
    Ok(())
}

/// Appends a message, unless one of its lengths does not fit its field.
pub fn encode_message(output: &mut Vec<u8>, message: &BrokerMessage) -> (result: Result<(), Error>)
    ensures
        result is Ok <==> message_fits(message@),
        result is Ok ==> final(output)@ == old(output)@ + message_body(message@),
        result is Err ==> result->Err_0 == Error::Overloaded,
{
    proof {
        reveal(message_fits);
        reveal(message_body);
    }
    let ghost m = message@;
    let ghost before = output@;
    let ghost a = name_bytes(m.topic);
    let ghost b = data_bytes(m.payload);
    let ghost c = seq![m.qos];
    let ghost d = flag_bytes(m.retain);
    let ghost f = seq![format_byte(m.properties.payload_format)];
    let ghost g = be64(bits_of(expiry_number(m.properties.expires_at_ms)));
    let ghost h = props_tail_body(m.properties);
    put_string(output, message.topic.as_str())?;
    put_bytes(output, message.payload.as_slice())?;
    put_byte(output, message.qos);
    put_flag(output, message.retain);
    put_byte(
        output,
        match message.properties.payload_format {
            Some(value) => value,
            None => 2,
        },
    );
    put_i64(
        output,
        match message.properties.expires_at_ms {
            Some(value) => value,
            None => -1,
        },
    );
    encode_props_tail(output, &message.properties)?;
    proof {
        lemma_join(before, a, b + (c + (d + (f + (g + h)))));
        lemma_join(before + a, b, c + (d + (f + (g + h))));
        lemma_join(before + a + b, c, d + (f + (g + h)));
        lemma_join(before + a + b + c, d, f + (g + h));
        lemma_join(before + a + b + c + d, f, g + h);
        lemma_join(before + a + b + c + d + f, g, h);
    }
    Ok(())
}

} // verus!
