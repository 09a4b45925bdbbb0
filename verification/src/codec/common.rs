//! The parts of the wire format that both protocol versions share.
use crate::buffer::{bytes_contents, bytes_slice, get_u16, get_u8};
use crate::error::Error;
use crate::limits::Limits;
use crate::number::{append_bytes, be};
use crate::text;
use bytes::Bytes;
use vstd::prelude::*;
use vstd::utf8::decode_utf8;

verus! {

/// The largest length that four length bytes can carry.
pub const MAX_REMAINING: usize = 268_435_455;

/// How far a variable byte integer could be read.
#[derive(Clone, Copy)]
pub enum Scan {
    More,
    Malformed,
    Done { value: usize, used: usize },
}

/// What reading a variable byte integer of at most `room` bytes gives.
pub enum ScanView {
    More,
    Malformed,
    Done { value: nat, used: nat },
}

/// Each byte carries seven bits, the least significant first; its top bit announces another byte.
pub open spec fn scan_varint(input: Seq<u8>, room: nat) -> ScanView
    decreases room,
{
    if room == 0 {
        ScanView::Malformed
    } else if input.len() == 0 {
        ScanView::More
    } else if input[0] < 128 {
        ScanView::Done { value: input[0] as nat, used: 1 }
    } else {
        match scan_varint(input.drop_first(), (room - 1) as nat) {
            ScanView::Done { value, used } => ScanView::Done {
                value: (input[0] - 128) as nat + 128 * value,
                used: used + 1,
            },
            other => other,
        }
    }
}

/// The shortest variable byte integer that carries the value.
pub open spec fn varint(value: nat) -> Seq<u8>
    decreases value,
{
    if value < 128 {
        seq![value as u8]
    } else {
        seq![(value % 128 + 128) as u8] + varint(value / 128)
    }
}

pub open spec fn power128(room: nat) -> nat
    decreases room,
{
    if room == 0 {
        1
    } else {
        128 * power128((room - 1) as nat)
    }
}

/// Reading a variable byte integer gives back the value that was written, whatever follows it.
pub proof fn lemma_varint_round_trip(value: nat, room: nat, tail: Seq<u8>)
    requires
        value < power128(room),
        room > 0,
    ensures
        scan_varint(varint(value) + tail, room) == (ScanView::Done {
            value,
            used: varint(value).len(),
        }),
        1 <= varint(value).len() <= room,
    decreases room,
{
    let input = varint(value) + tail;
    if value < 128 {
        assert(input[0] == value as u8);
    } else {
        if room == 1 {
            assert(power128(1) == 128) by {
                reveal_with_fuel(power128, 2);
            }
        }
        let high = value / 128;
        assert(high < power128((room - 1) as nat)) by (nonlinear_arith)
            requires
                value < 128 * power128((room - 1) as nat),
                high == value / 128,
        ;
        lemma_varint_round_trip(high, (room - 1) as nat, tail);
        assert(input.drop_first() =~= varint(high) + tail);
    }
}

pub proof fn lemma_power128()
    ensures
        power128(1) == 0x80,
        power128(4) == 0x1000_0000,
{
    reveal_with_fuel(power128, 5);
}

/// A value that fits four bytes is read back as it was written.
pub proof fn law_remaining_length_round_trip(value: nat, tail: Seq<u8>)
    requires
        value <= MAX_REMAINING,
    ensures
        scan_varint(varint(value) + tail, 4) == (ScanView::Done {
            value,
            used: varint(value).len(),
        }),
        1 <= varint(value).len() <= 4,
{
    lemma_power128();
    lemma_varint_round_trip(value, 4, tail);
}

/// An unfinished length stays unfinished: every proper prefix of a length asks for more.
pub proof fn law_remaining_length_prefix(value: nat, room: nat, cut: int)
    requires
        value < power128(room),
        room > 0,
        0 <= cut < varint(value).len(),
    ensures
        scan_varint(varint(value).take(cut), room) == ScanView::More,
    decreases room,
{
    let part = varint(value).take(cut);
    if value >= 128 {
        if room == 1 {
            assert(power128(1) == 128) by {
                reveal_with_fuel(power128, 2);
            }
        }
        if cut > 0 {
            let high = value / 128;
            assert(high < power128((room - 1) as nat)) by (nonlinear_arith)
                requires
                    value < 128 * power128((room - 1) as nat),
                    high == value / 128,
            ;
            law_remaining_length_prefix(high, (room - 1) as nat, cut - 1);
            assert(part.drop_first() =~= varint(high).take(cut - 1));
        }
    }
}

fn scan(input: &[u8], start: usize, room: usize) -> (result: Scan)
    requires
        start <= input@.len(),
        room <= 4,
    ensures
        match scan_varint(input@.skip(start as int), room as nat) {
            ScanView::More => result is More,
            ScanView::Malformed => result is Malformed,
            ScanView::Done { value, used } => result == (Scan::Done {
                value: value as usize,
                used: used as usize,
            }) && value < power128(room as nat) && 1 <= used <= room && start + used
                <= input@.len(),
        },
    decreases room,
{
    let total: usize = input.len();
    if room == 0 {
        return Scan::Malformed;
    }
    if start == total {
        return Scan::More;
    }
    let byte: u8 = input[start];
    let ghost rest = input@.skip(start as int);
    proof {
        assert(rest[0] == byte);
        assert(rest.drop_first() =~= input@.skip(start + 1));
        reveal_with_fuel(power128, 5);
    }
    if byte < 128 {
        return Scan::Done { value: byte as usize, used: 1 };
    }
    match scan(input, start + 1, room - 1) {
        Scan::Done { value, used } => {
            Scan::Done { value: (byte as usize - 128) + 128 * value, used: used + 1 }
        },
        Scan::More => Scan::More,
        Scan::Malformed => Scan::Malformed,
    }
}

/// What `remaining_length` returns.
pub open spec fn remaining_length_spec(input: Seq<u8>, maximum: nat) -> Result<
    Option<(usize, usize)>,
    Error,
> {
    match scan_varint(input, 4) {
        ScanView::More => Ok(None),
        ScanView::Malformed => Err(Error::Invalid),
        ScanView::Done { value, used } => if value > maximum {
            Err(Error::Overloaded)
        } else {
            Ok(Some((value as usize, used as usize)))
        },
    }
}

/// Decodes a remaining length without reserving or growing an input buffer: the value and the
/// number of bytes it occupies, or nothing while it is unfinished.
pub fn remaining_length(input: &[u8], maximum: usize) -> (result: Result<
    Option<(usize, usize)>,
    Error,
>)
    ensures
        result == remaining_length_spec(input@, maximum as nat),
        result matches Ok(Some((value, used))) ==> value <= MAX_REMAINING && 1 <= used <= 4 && used
            <= input@.len() && value <= maximum,
{
    proof {
        lemma_power128();
        assert(input@.skip(0) =~= input@);
    }
    match scan(input, 0, 4) {
        Scan::More => Ok(None),
        Scan::Malformed => Err(Error::Invalid),
        Scan::Done { value, used } => if value > maximum {
            Err(Error::Overloaded)
        } else {
            Ok(Some((value, used)))
        },
    }
}

/// The flag bits that each packet type permits.
pub open spec fn flags_ok(first: u8) -> bool {
    let kind = first >> 4;
    let flags = first & 0x0f;
    if kind == 0 {
        false
    } else if kind == 3 {
        (first >> 1) & 3 != 3
    } else if kind == 6 || kind == 8 || kind == 10 {
        flags == 2
    } else {
        flags == 0
    }
}

/// What `fixed_header` returns: the first byte, the header's size and the packet's size.
pub open spec fn fixed_header_spec(input: Seq<u8>, maximum: nat) -> Result<
    Option<(u8, usize, usize)>,
    Error,
> {
    if input.len() == 0 {
        Ok(None)
    } else if !flags_ok(input[0]) {
        Err(Error::Invalid)
    } else {
        match scan_varint(input.skip(1), 4) {
            ScanView::More => Ok(None),
            ScanView::Malformed => Err(Error::Invalid),
            ScanView::Done { value, used } => if 1 + used + value > maximum {
                Err(Error::Overloaded)
            } else {
                Ok(Some((input[0], (1 + used) as usize, (1 + used + value) as usize)))
            },
        }
    }
}

/// Reads the fixed header: the first byte, the header's size and the packet's size.
pub fn fixed_header(input: &[u8], maximum: usize) -> (result: Result<
    Option<(u8, usize, usize)>,
    Error,
>)
    ensures
        result == fixed_header_spec(input@, maximum as nat),
        result matches Ok(Some((first, header, total))) ==> 2 <= header <= total && header
            <= input@.len(),
{
    if input.len() == 0 {
        return Ok(None);
    }
    let first: u8 = input[0];
    let kind: u8 = first >> 4;
    let flags: u8 = first & 0x0f;
    let accepted = if kind == 0 {
        false
    } else if kind == 3 {
        (first >> 1) & 3 != 3
    } else if kind == 6 || kind == 8 || kind == 10 {
        flags == 2
    } else {
        flags == 0
    };
    if !accepted {
        return Err(Error::Invalid);
    }
    proof {
        lemma_power128();
    }
    match scan(input, 1, 4) {
        Scan::More => Ok(None),
        Scan::Malformed => Err(Error::Invalid),
        Scan::Done { value, used } => {
            let total: usize = 1 + used + value;
            if total > maximum {
                Err(Error::Overloaded)
            } else {
                Ok(Some((first, 1 + used, total)))
            }
        },
    }
}

/// Text of the bytes, or `Invalid` unless they are well-formed UTF-8 of permitted characters.
pub fn valid_utf8(bytes: &[u8]) -> (text: Result<&str, Error>)
    ensures
        text is Ok <==> text::permitted_bytes(bytes@),
        text is Ok ==> text->Ok_0@ == decode_utf8(bytes@) && vstd::utf8::encode_utf8(text->Ok_0@)
            == bytes@,
        text is Err ==> text->Err_0 == Error::Invalid,
{
    text::valid_text(bytes)
}

/// A topic name, or with `filter` a topic filter, within the limits.
pub open spec fn topic_valid(topic: Seq<char>, limits: Limits, filter: bool) -> bool {
    text::topic_ok(topic, limits.max_topic_bytes as nat, limits.max_topic_depth as nat, filter)
}

/// Whether a text is a valid topic name, or with `filter` a valid topic filter.
pub fn valid_topic(topic: &str, limits: &Limits, filter: bool) -> (valid: bool)
    ensures
        valid == topic_valid(topic@, *limits, filter),
{
    text::valid_topic(topic, limits.max_topic_bytes, limits.max_topic_depth, filter)
}

/// Whether the wildcards of a topic filter are well placed.
pub fn valid_filter(filter: &str) -> (valid: bool)
    ensures
        valid == text::filter_ok(filter@),
{
    text::valid_filter(filter)
}

/// One byte and what follows it.
pub open spec fn take_byte(s: Seq<u8>) -> Option<(u8, Seq<u8>)> {
    if s.len() < 1 {
        None
    } else {
        Some((s[0], s.skip(1)))
    }
}

/// A two byte number and what follows it.
pub open spec fn take_short(s: Seq<u8>) -> Option<(u16, Seq<u8>)> {
    if s.len() < 2 {
        None
    } else {
        Some((be(s.take(2)) as u16, s.skip(2)))
    }
}

/// Length-prefixed bytes, at most `maximum` of them, and what follows.
pub open spec fn take_binary(s: Seq<u8>, maximum: nat) -> Option<(Seq<u8>, Seq<u8>)> {
    match take_short(s) {
        None => None,
        Some((length, rest)) => if length > maximum || length > rest.len() {
            None
        } else {
            Some((rest.take(length as int), rest.skip(length as int)))
        },
    }
}

/// Length-prefixed text of permitted characters and what follows.
pub open spec fn take_string(s: Seq<u8>, maximum: nat) -> Option<(Seq<char>, Seq<u8>)> {
    match take_binary(s, maximum) {
        None => None,
        Some((bytes, rest)) => if text::permitted_bytes(bytes) {
            Some((decode_utf8(bytes), rest))
        } else {
            None
        },
    }
}

/// A packet identifier, which is never zero, and what follows it.
pub open spec fn take_id(s: Seq<u8>) -> Option<(u16, Seq<u8>)> {
    match take_short(s) {
        None => None,
        Some((id, rest)) => if id == 0 {
            None
        } else {
            Some((id, rest))
        },
    }
}

/// Reads a packet body from the front.
pub struct Cursor {
    pub bytes: Bytes,
}

impl Cursor {
    /// What is still unread.
    pub open spec fn rest(self) -> Seq<u8> {
        bytes_contents(self.bytes)
    }

    pub fn byte(&mut self) -> (result: Result<u8, Error>)
        ensures
            match take_byte(old(self).rest()) {
                Some((value, rest)) => result == Ok::<u8, Error>(value) && final(self).rest() == rest,
                None => result == Err::<u8, Error>(Error::Invalid),
            },
    {
        if self.bytes.is_empty() {
            return Err(Error::Invalid);
        }
        Ok(get_u8(&mut self.bytes))
    }

    pub fn short(&mut self) -> (result: Result<u16, Error>)
        ensures
            match take_short(old(self).rest()) {
                Some((value, rest)) => result == Ok::<u16, Error>(value) && final(self).rest()
                    == rest,
                None => result == Err::<u16, Error>(Error::Invalid),
            },
    {
        if self.bytes.len() < 2 {
            return Err(Error::Invalid);
        }
        Ok(get_u16(&mut self.bytes))
    }

    pub fn binary(&mut self, maximum: usize) -> (result: Result<Bytes, Error>)
        ensures
            match take_binary(old(self).rest(), maximum as nat) {
                Some((value, rest)) => result is Ok && bytes_contents(result->Ok_0) == value
                    && final(self).rest() == rest,
                None => result is Err && result->Err_0 == Error::Invalid,
            },
    {
        let length: usize = self.short()? as usize;
        if length > maximum || length > self.bytes.len() {
            return Err(Error::Invalid);
        }
        Ok(self.bytes.split_to(length))
    }

    pub fn string(&mut self, maximum: usize) -> (result: Result<String, Error>)
        ensures
            match take_string(old(self).rest(), maximum as nat) {
                Some((value, rest)) => result is Ok && result->Ok_0@ == value && final(self).rest()
                    == rest,
                None => result is Err && result->Err_0 == Error::Invalid,
            },
    {
        let bytes = self.binary(maximum)?;
        match valid_utf8(bytes_slice(&bytes)) {
            Ok(text) => Ok(text.to_owned()),
            Err(error) => Err(error),
        }
    }

    pub fn id(&mut self) -> (result: Result<u16, Error>)
        ensures
            match take_id(old(self).rest()) {
                Some((value, rest)) => result == Ok::<u16, Error>(value) && final(self).rest()
                    == rest,
                None => result == Err::<u16, Error>(Error::Invalid),
            },
    {
        let id: u16 = self.short()?;
        if id == 0 {
            return Err(Error::Invalid);
        }
        Ok(id)
    }

    pub fn done(&self) -> (result: Result<(), Error>)
        ensures
            result == if self.rest().len() == 0 {
                Ok::<(), Error>(())
            } else {
                Err::<(), Error>(Error::Invalid)
            },
    {
        if self.bytes.is_empty() {
            Ok(())
        } else {
            Err(Error::Invalid)
        }
    }
}

/// Appends the shortest variable byte integer that carries the value.
pub fn put_varint(output: &mut Vec<u8>, value: usize)
    ensures
        final(output)@ == old(output)@ + varint(value as nat),
    decreases value,
{
    let ghost before = output@;
    if value < 128 {
        output.push(value as u8);
        assert(output@ =~= before + varint(value as nat));
    } else {
        output.push((value % 128 + 128) as u8);
        let ghost middle = output@;
        put_varint(output, value / 128);
        assert(output@ =~= before + varint(value as nat));
    }
}

/// The size of a packet whose body has `remaining` bytes.
pub open spec fn packet_size(remaining: nat) -> nat {
    1 + varint(remaining).len() + remaining
}

fn varint_size(value: usize) -> (size: usize)
    requires
        value <= MAX_REMAINING,
    ensures
        size == varint(value as nat).len(),
        1 <= size <= 4,
{
    reveal_with_fuel(varint, 5);
    if value < 128 {
        1
    } else if value < 16_384 {
        2
    } else if value < 2_097_152 {
        3
    } else {
        4
    }
}

/// The size of a packet whose body has `remaining` bytes, unless no length can announce it.
pub fn encoded_size(remaining: usize) -> (result: Result<usize, Error>)
    ensures
        result is Ok <==> remaining <= MAX_REMAINING,
        result is Ok ==> result->Ok_0 == packet_size(remaining as nat),
        result is Err ==> result->Err_0 == Error::Overloaded,
{
    if remaining > MAX_REMAINING {
        return Err(Error::Overloaded);
    }
    Ok(1 + varint_size(remaining) + remaining)
}

/// A packet: its first byte, the length of its body and the body.
pub open spec fn packet_bytes(first: u8, body: Seq<u8>) -> Seq<u8> {
    seq![first] + varint(body.len()) + body
}

/// Whether a packet with such a body fits the maximum.
pub open spec fn packet_fits(remaining: nat, maximum: nat) -> bool {
    remaining <= MAX_REMAINING && packet_size(remaining) <= maximum
}

/// What the packet encoders return.
pub open spec fn encode_spec(first: u8, body: Seq<u8>, maximum: nat, result: Result<Vec<u8>, Error>) -> bool {
    if packet_fits(body.len(), maximum) {
        result is Ok && result->Ok_0@ == packet_bytes(first, body)
    } else {
        result is Err && result->Err_0 == Error::Overloaded
    }
}

/// Encodes a packet, unless it is larger than the maximum.
pub fn encode(first: u8, body: &[u8], maximum: usize) -> (result: Result<Vec<u8>, Error>)
    ensures
        encode_spec(first, body@, maximum as nat, result),
{
    let size: usize = encoded_size(body.len())?;
    if size > maximum {
        return Err(Error::Overloaded);
    }
    let mut output: Vec<u8> = Vec::new();
    output.push(first);
    put_varint(&mut output, body.len());
    append_bytes(&mut output, body);
    assert(output@ =~= packet_bytes(first, body@));
    Ok(output)
}

/// The header of an encoded packet announces exactly that packet, whatever follows it.
pub proof fn law_header_of_encoded(first: u8, body: Seq<u8>, tail: Seq<u8>, maximum: nat)
    requires
        flags_ok(first),
        packet_fits(body.len(), maximum),
    ensures
        ({
            let wire = packet_bytes(first, body);
            let header = 1 + varint(body.len()).len();
            &&& fixed_header_spec(wire + tail, maximum) == Ok::<
                Option<(u8, usize, usize)>,
                Error,
            >(Some((first, header as usize, wire.len() as usize)))
            &&& (wire + tail).take(wire.len() as int).skip(header as int) == body
            &&& (wire + tail).skip(wire.len() as int) == tail
            &&& wire.len() == packet_size(body.len())
            &&& header <= wire.len() < 0x1_0000_0000
        }),
{
    let wire = packet_bytes(first, body);
    law_remaining_length_round_trip(body.len(), body + tail);
    assert((wire + tail).skip(1) =~= varint(body.len()) + (body + tail));
    let header = 1 + varint(body.len()).len();
    assert((wire + tail).take(wire.len() as int).skip(header as int) =~= body);
    assert((wire + tail).skip(wire.len() as int) =~= tail);
}

/// Until the whole packet has arrived its header announces more bytes than are there, or is
/// itself unfinished.
pub proof fn law_header_of_prefix(first: u8, body: Seq<u8>, cut: int, maximum: nat)
    requires
        flags_ok(first),
        packet_fits(body.len(), maximum),
        0 <= cut < packet_bytes(first, body).len(),
    ensures
        ({
            let part = packet_bytes(first, body).take(cut);
            let header = fixed_header_spec(part, maximum);
            ||| header == Ok::<Option<(u8, usize, usize)>, Error>(None)
            ||| header matches Ok(Some((_, _, total))) && part.len() < total
        }),
{
    let wire = packet_bytes(first, body);
    let part = wire.take(cut);
    let size = varint(body.len());
    lemma_power128();
    if cut == 0 {
    } else if cut < 1 + size.len() {
        law_remaining_length_prefix(body.len(), 4, cut - 1);
        assert(part.skip(1) =~= size.take(cut - 1));
    } else {
        let seen = body.take(cut - 1 - size.len());
        law_remaining_length_round_trip(body.len(), seen);
        assert(part.skip(1) =~= size + seen);
    }
}

} // verus!
