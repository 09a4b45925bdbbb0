//! The fields that records are made of.
use crate::error::Error;
use crate::number::{
    append_bytes, be, be16, be32, be64, bits_of, copy_range, from_bits, lemma_be_round_trip,
    lemma_power256, lemma_to_be_len, power256, put_u16, put_u32, read_be, signed_of, to_be,
};
use crate::text::{byte_len, decode_text, permitted_bytes, permitted_text, text_bytes, valid_text};
use vstd::prelude::*;
use vstd::utf8::{decode_utf8, encode_utf8, valid_utf8};

verus! {

/// What a field reads: its value and the bytes behind it, or why there is none.
pub type Parsed<T> = Result<(T, Seq<u8>), Error>;

pub open spec fn get_u8(s: Seq<u8>) -> Parsed<u8> {
    if s.len() < 1 {
        Err(Error::Invalid)
    } else {
        Ok((s[0], s.skip(1)))
    }
}

/// A number of so many bytes, most significant first.
pub open spec fn get_number(s: Seq<u8>, width: nat) -> Parsed<nat> {
    if s.len() < width {
        Err(Error::Invalid)
    } else {
        Ok((be(s.take(width as int)), s.skip(width as int)))
    }
}

#[verifier::opaque]
pub open spec fn get_u16(s: Seq<u8>) -> Parsed<u16> {
    match get_number(s, 2) {
        Ok((value, rest)) => Ok((value as u16, rest)),
        Err(error) => Err(error),
    }
}

#[verifier::opaque]
pub open spec fn get_u32(s: Seq<u8>) -> Parsed<u32> {
    match get_number(s, 4) {
        Ok((value, rest)) => Ok((value as u32, rest)),
        Err(error) => Err(error),
    }
}

#[verifier::opaque]
pub open spec fn get_u64(s: Seq<u8>) -> Parsed<u64> {
    match get_number(s, 8) {
        Ok((value, rest)) => Ok((value as u64, rest)),
        Err(error) => Err(error),
    }
}

#[verifier::opaque]
pub open spec fn get_i64(s: Seq<u8>) -> Parsed<i64> {
    match get_u64(s) {
        Ok((bits, rest)) => Ok((signed_of(bits), rest)),
        Err(error) => Err(error),
    }
}

/// A byte that is zero or one.
#[verifier::opaque]
pub open spec fn get_flag(s: Seq<u8>) -> Parsed<bool> {
    match get_u8(s) {
        Ok((value, rest)) => if value == 0 {
            Ok((false, rest))
        } else if value == 1 {
            Ok((true, rest))
        } else {
            Err(Error::Invalid)
        },
        Err(error) => Err(error),
    }
}

pub open spec fn get_raw(s: Seq<u8>, length: nat) -> Parsed<Seq<u8>> {
    if s.len() < length {
        Err(Error::Invalid)
    } else {
        Ok((s.take(length as int), s.skip(length as int)))
    }
}

/// A text of at least one byte.
#[verifier::opaque]
pub open spec fn get_name(s: Seq<u8>, maximum: nat) -> Parsed<Seq<char>> {
    match get_u16(s) {
        Err(error) => Err(error),
        Ok((length, rest)) => if length == 0 || length > maximum {
            Err(Error::Invalid)
        } else {
            match get_raw(rest, length as nat) {
                Err(error) => Err(error),
                Ok((bytes, rest)) => if valid_utf8(bytes) {
                    Ok((decode_utf8(bytes), rest))
                } else {
                    Err(Error::Invalid)
                },
            }
        },
    }
}

/// A text of permitted characters, perhaps empty.
#[verifier::opaque]
pub open spec fn get_text(s: Seq<u8>, maximum: nat) -> Parsed<Seq<char>> {
    match get_u16(s) {
        Err(error) => Err(error),
        Ok((length, rest)) => if length > maximum {
            Err(Error::Invalid)
        } else {
            match get_raw(rest, length as nat) {
                Err(error) => Err(error),
                Ok((bytes, rest)) => if permitted_bytes(bytes) {
                    Ok((decode_utf8(bytes), rest))
                } else {
                    Err(Error::Invalid)
                },
            }
        },
    }
}

#[verifier::opaque]
pub open spec fn get_optional_text(s: Seq<u8>, maximum: nat) -> Parsed<Option<Seq<char>>> {
    match get_flag(s) {
        Err(error) => Err(error),
        Ok((false, rest)) => Ok((None, rest)),
        Ok((true, rest)) => match get_text(rest, maximum) {
            Err(error) => Err(error),
            Ok((text, rest)) => Ok((Some(text), rest)),
        },
    }
}

#[verifier::opaque]
pub open spec fn get_data(s: Seq<u8>, maximum: nat) -> Parsed<Seq<u8>> {
    match get_u32(s) {
        Err(error) => Err(error),
        Ok((length, rest)) => if length > maximum {
            Err(Error::Invalid)
        } else {
            get_raw(rest, length as nat)
        },
    }
}

#[verifier::opaque]
pub open spec fn get_optional_data(s: Seq<u8>, maximum: nat) -> Parsed<Option<Seq<u8>>> {
    match get_flag(s) {
        Err(error) => Err(error),
        Ok((false, rest)) => Ok((None, rest)),
        Ok((true, rest)) => match get_data(rest, maximum) {
            Err(error) => Err(error),
            Ok((data, rest)) => Ok((Some(data), rest)),
        },
    }
}

pub open spec fn get_pairs(s: Seq<u8>, number: nat, maximum: nat) -> Parsed<
    Seq<(Seq<char>, Seq<char>)>,
>
    decreases number,
{
    if number == 0 {
        Ok((Seq::empty(), s))
    } else {
        match get_text(s, maximum) {
            Err(error) => Err(error),
            Ok((key, rest)) => match get_text(rest, maximum) {
                Err(error) => Err(error),
                Ok((value, rest)) => match get_pairs(rest, (number - 1) as nat, maximum) {
                    Err(error) => Err(error),
                    Ok((pairs, rest)) => Ok((seq![(key, value)] + pairs, rest)),
                },
            },
        }
    }
}

pub open spec fn flag_bytes(flag: bool) -> Seq<u8> {
    seq![if flag { 1u8 } else { 0u8 }]
}

pub open spec fn text_fits(text: Seq<char>) -> bool {
    text_bytes(text) <= u16::MAX
}

/// A text with its length in front.
#[verifier::opaque]
pub open spec fn name_bytes(text: Seq<char>) -> Seq<u8> {
    be16(text_bytes(text) as u16) + encode_utf8(text)
}

#[verifier::opaque]
pub open spec fn data_bytes(data: Seq<u8>) -> Seq<u8> {
    be32(data.len() as u32) + data
}

#[verifier::opaque]
pub open spec fn optional_name_bytes(text: Option<Seq<char>>) -> Seq<u8> {
    match text {
        Some(text) => flag_bytes(true) + name_bytes(text),
        None => flag_bytes(false),
    }
}

#[verifier::opaque]
pub open spec fn optional_data_bytes(data: Option<Seq<u8>>) -> Seq<u8> {
    match data {
        Some(data) => flag_bytes(true) + data_bytes(data),
        None => flag_bytes(false),
    }
}

pub open spec fn pair_list_bytes(pairs: Seq<(Seq<char>, Seq<char>)>) -> Seq<u8>
    decreases pairs.len(),
{
    if pairs.len() == 0 {
        Seq::empty()
    } else {
        name_bytes(pairs[0].0) + (name_bytes(pairs[0].1) + pair_list_bytes(pairs.drop_first()))
    }
}

pub open spec fn pairs_fit(pairs: Seq<(Seq<char>, Seq<char>)>) -> bool {
    forall|i: int|
        0 <= i < pairs.len() ==> text_fits((#[trigger] pairs[i]).0) && text_fits(pairs[i].1)
}

/// Pieces may be joined in any grouping.
pub proof fn lemma_join(a: Seq<u8>, b: Seq<u8>, c: Seq<u8>)
    ensures
        (a + b) + c == a + (b + c),
{
    assert((a + b) + c =~= a + (b + c));
}

/// The front piece of a joined sequence and what follows it.
pub proof fn lemma_front(a: Seq<u8>, b: Seq<u8>)
    ensures
        (a + b).take(a.len() as int) == a,
        (a + b).skip(a.len() as int) == b,
        (a + b).len() == a.len() + b.len(),
{
    assert((a + b).take(a.len() as int) =~= a);
    assert((a + b).skip(a.len() as int) =~= b);
}

pub proof fn lemma_get_u8(value: u8, rest: Seq<u8>)
    ensures
        get_u8(seq![value] + rest) == Ok::<(u8, Seq<u8>), Error>((value, rest)),
{
    lemma_front(seq![value], rest);
}

pub proof fn lemma_get_number(value: nat, width: nat, rest: Seq<u8>)
    requires
        value < power256(width),
    ensures
        get_number(to_be(value, width) + rest, width) == Ok::<(nat, Seq<u8>), Error>((value, rest)),
{
    lemma_to_be_len(value, width);
    lemma_be_round_trip(value, width);
    lemma_front(to_be(value, width), rest);
}

pub proof fn lemma_get_u16(value: u16, rest: Seq<u8>)
    ensures
        get_u16(be16(value) + rest) == Ok::<(u16, Seq<u8>), Error>((value, rest)),
{
    reveal(get_u16);
    lemma_power256();
    lemma_get_number(value as nat, 2, rest);
}

pub proof fn lemma_get_u32(value: u32, rest: Seq<u8>)
    ensures
        get_u32(be32(value) + rest) == Ok::<(u32, Seq<u8>), Error>((value, rest)),
{
    reveal(get_u32);
    lemma_power256();
    lemma_get_number(value as nat, 4, rest);
}

pub proof fn lemma_get_u64(value: u64, rest: Seq<u8>)
    ensures
        get_u64(be64(value) + rest) == Ok::<(u64, Seq<u8>), Error>((value, rest)),
{
    reveal(get_u64);
    lemma_power256();
    lemma_get_number(value as nat, 8, rest);
}

pub proof fn lemma_get_i64(value: i64, rest: Seq<u8>)
    ensures
        get_i64(be64(bits_of(value)) + rest) == Ok::<(i64, Seq<u8>), Error>((value, rest)),
{
    reveal(get_i64);
    lemma_get_u64(bits_of(value), rest);
}

pub proof fn lemma_get_flag(flag: bool, rest: Seq<u8>)
    ensures
        get_flag(flag_bytes(flag) + rest) == Ok::<(bool, Seq<u8>), Error>((flag, rest)),
{
    reveal(get_flag);
    lemma_get_u8(
        if flag {
            1u8
        } else {
            0u8
        },
        rest,
    );
}

proof fn lemma_written_text(text: Seq<char>)
    ensures
        valid_utf8(encode_utf8(text)),
        decode_utf8(encode_utf8(text)) == text,
{
    vstd::utf8::encode_utf8_valid_utf8(text);
    vstd::utf8::encode_utf8_decode_utf8(text);
}

pub proof fn lemma_get_name(text: Seq<char>, rest: Seq<u8>, maximum: nat)
    requires
        text_fits(text),
        0 < text_bytes(text) <= maximum,
    ensures
        get_name(name_bytes(text) + rest, maximum) == Ok::<(Seq<char>, Seq<u8>), Error>(
            (text, rest),
        ),
{
    reveal(get_name);
    reveal(name_bytes);
    let bytes = encode_utf8(text);
    lemma_join(be16(text_bytes(text) as u16), bytes, rest);
    lemma_get_u16(text_bytes(text) as u16, bytes + rest);
    lemma_front(bytes, rest);
    lemma_written_text(text);
}

pub proof fn lemma_get_text(text: Seq<char>, rest: Seq<u8>, maximum: nat)
    requires
        text_fits(text),
        permitted_text(text),
        text_bytes(text) <= maximum,
    ensures
        get_text(name_bytes(text) + rest, maximum) == Ok::<(Seq<char>, Seq<u8>), Error>(
            (text, rest),
        ),
{
    reveal(get_text);
    reveal(name_bytes);
    let bytes = encode_utf8(text);
    lemma_join(be16(text_bytes(text) as u16), bytes, rest);
    lemma_get_u16(text_bytes(text) as u16, bytes + rest);
    lemma_front(bytes, rest);
    lemma_written_text(text);
}

pub proof fn lemma_get_optional_text(text: Option<Seq<char>>, rest: Seq<u8>, maximum: nat)
    requires
        text matches Some(t) ==> text_fits(t) && permitted_text(t) && text_bytes(t) <= maximum,
    ensures
        get_optional_text(optional_name_bytes(text) + rest, maximum) == Ok::<
            (Option<Seq<char>>, Seq<u8>),
            Error,
        >((text, rest)),
{
    reveal(get_optional_text);
    reveal(optional_name_bytes);
    match text {
        Some(t) => {
            lemma_join(flag_bytes(true), name_bytes(t), rest);
            lemma_get_flag(true, name_bytes(t) + rest);
            lemma_get_text(t, rest, maximum);
        },
        None => {
            lemma_get_flag(false, rest);
        },
    }
}

pub proof fn lemma_get_data(data: Seq<u8>, rest: Seq<u8>, maximum: nat)
    requires
        data.len() <= u32::MAX,
        data.len() <= maximum,
    ensures
        get_data(data_bytes(data) + rest, maximum) == Ok::<(Seq<u8>, Seq<u8>), Error>((data, rest)),
{
    reveal(get_data);
    reveal(data_bytes);
    lemma_join(be32(data.len() as u32), data, rest);
    lemma_get_u32(data.len() as u32, data + rest);
    lemma_front(data, rest);
}

pub proof fn lemma_get_optional_data(data: Option<Seq<u8>>, rest: Seq<u8>, maximum: nat)
    requires
        data matches Some(d) ==> d.len() <= u32::MAX && d.len() <= maximum,
    ensures
        get_optional_data(optional_data_bytes(data) + rest, maximum) == Ok::<
            (Option<Seq<u8>>, Seq<u8>),
            Error,
        >((data, rest)),
{
    reveal(get_optional_data);
    reveal(optional_data_bytes);
    match data {
        Some(d) => {
            lemma_join(flag_bytes(true), data_bytes(d), rest);
            lemma_get_flag(true, data_bytes(d) + rest);
            lemma_get_data(d, rest, maximum);
        },
        None => {
            lemma_get_flag(false, rest);
        },
    }
}

pub proof fn lemma_get_pairs(pairs: Seq<(Seq<char>, Seq<char>)>, rest: Seq<u8>, maximum: nat)
    requires
        pairs_fit(pairs),
        forall|i: int|
            0 <= i < pairs.len() ==> {
                &&& permitted_text((#[trigger] pairs[i]).0)
                &&& permitted_text(pairs[i].1)
                &&& text_bytes(pairs[i].0) <= maximum
                &&& text_bytes(pairs[i].1) <= maximum
            },
    ensures
        get_pairs(pair_list_bytes(pairs) + rest, pairs.len(), maximum) == Ok::<
            (Seq<(Seq<char>, Seq<char>)>, Seq<u8>),
            Error,
        >((pairs, rest)),
    decreases pairs.len(),
{
    if pairs.len() == 0 {
        assert(pair_list_bytes(pairs) + rest =~= rest);
        assert(pairs =~= Seq::empty());
    } else {
        let tail = pairs.drop_first();
        let tail_bytes = pair_list_bytes(tail);
        let (key, value) = pairs[0];
        assert forall|i: int| 0 <= i < tail.len() implies {
            &&& permitted_text((#[trigger] tail[i]).0)
            &&& permitted_text(tail[i].1)
            &&& text_bytes(tail[i].0) <= maximum
            &&& text_bytes(tail[i].1) <= maximum
            &&& text_fits(tail[i].0)
            &&& text_fits(tail[i].1)
        } by {
            assert(tail[i] == pairs[i + 1]);
        }
        lemma_get_pairs(tail, rest, maximum);
        lemma_join(name_bytes(key), name_bytes(value) + tail_bytes, rest);
        lemma_join(name_bytes(value), tail_bytes, rest);
        lemma_get_text(key, name_bytes(value) + (tail_bytes + rest), maximum);
        lemma_get_text(value, tail_bytes + rest, maximum);
        assert(seq![(key, value)] + tail =~= pairs);
    }
}

pub open spec fn text_outcome(result: Result<String, Error>) -> Result<Seq<char>, Error> {
    match result {
        Ok(text) => Ok(text@),
        Err(error) => Err(error),
    }
}

pub open spec fn optional_text_outcome(result: Result<Option<String>, Error>) -> Result<
    Option<Seq<char>>,
    Error,
> {
    match result {
        Ok(text) => Ok(crate::codec::v5::text_view(text)),
        Err(error) => Err(error),
    }
}

pub open spec fn data_outcome(result: Result<Vec<u8>, Error>) -> Result<Seq<u8>, Error> {
    match result {
        Ok(data) => Ok(data@),
        Err(error) => Err(error),
    }
}

pub open spec fn optional_data_outcome(result: Result<Option<Vec<u8>>, Error>) -> Result<
    Option<Seq<u8>>,
    Error,
> {
    match result {
        Ok(data) => Ok(crate::message::vec_view(data)),
        Err(error) => Err(error),
    }
}

pub open spec fn pairs_outcome(result: Result<Vec<(String, String)>, Error>) -> Result<
    Seq<(Seq<char>, Seq<char>)>,
    Error,
> {
    match result {
        Ok(pairs) => Ok(crate::codec::v5::pair_views(pairs@)),
        Err(error) => Err(error),
    }
}

/// Reads the fields of a record one after the other.
pub struct RecordReader<'a> {
    pub input: &'a [u8],
    pub at: usize,
}

/// The reader came to what the field says: the value and the bytes behind it, or the error.
pub open spec fn reads<T>(expected: Parsed<T>, got: Result<T, Error>, reader: RecordReader) -> bool {
    &&& reader.at <= reader.input@.len()
    &&& match (expected, got) {
        (Ok((value, rest)), Ok(result)) => result == value && reader.rest() == rest,
        (Err(error), Err(result)) => result == error,
        _ => false,
    }
}

impl<'a> RecordReader<'a> {
    pub open spec fn ok(self) -> bool {
        self.at <= self.input@.len()
    }

    /// The bytes that have not been read.
    pub open spec fn rest(self) -> Seq<u8> {
        self.input@.skip(self.at as int)
    }

    pub fn new(input: &'a [u8]) -> (reader: RecordReader<'a>)
        ensures
            reader.ok(),
            reader.rest() == input@,
    {
        let reader = RecordReader { input, at: 0 };
        assert(reader.rest() =~= input@);
        reader
    }

    pub fn u8(&mut self) -> (result: Result<u8, Error>)
        requires
            old(self).ok(),
        ensures
            reads(get_u8(old(self).rest()), result, *final(self)),
    {
        let left: usize = self.input.len() - self.at;
        if left < 1 {
            return Err(Error::Invalid);
        }
        let value = self.input[self.at];
        let ghost before = self.rest();
        self.at = self.at + 1;
        assert(self.rest() =~= before.skip(1));
        Ok(value)
    }

    fn number(&mut self, width: usize) -> (result: Result<u64, Error>)
        requires
            old(self).ok(),
            width <= 8,
        ensures
            final(self).ok(),
            match (get_number(old(self).rest(), width as nat), result) {
                (Ok((value, rest)), Ok(got)) => got == value && value < power256(width as nat)
                    && final(self).rest() == rest,
                (Err(error), Err(got)) => got == error,
                _ => false,
            },
    {
        let left: usize = self.input.len() - self.at;
        if left < width {
            return Err(Error::Invalid);
        }
        let ghost before = self.rest();
        let value: u64 = read_be(self.input, self.at, width);
        proof {
            assert(before.take(width as int) =~= self.input@.subrange(
                self.at as int,
                self.at + width,
            ));
            crate::number::lemma_to_be_of_be(before.take(width as int));
        }
        self.at = self.at + width;
        assert(self.rest() =~= before.skip(width as int));
        Ok(value)
    }

    pub fn u16(&mut self) -> (result: Result<u16, Error>)
        requires
            old(self).ok(),
        ensures
            reads(get_u16(old(self).rest()), result, *final(self)),
    {
        proof {
            reveal(get_u16);
        }
        proof {
            lemma_power256();
        }
        let value: u64 = self.number(2)?;
        Ok(value as u16)
    }

    pub fn u32(&mut self) -> (result: Result<u32, Error>)
        requires
            old(self).ok(),
        ensures
            reads(get_u32(old(self).rest()), result, *final(self)),
    {
        proof {
            reveal(get_u32);
        }
        proof {
            lemma_power256();
        }
        let value: u64 = self.number(4)?;
        Ok(value as u32)
    }

    pub fn u64(&mut self) -> (result: Result<u64, Error>)
        requires
            old(self).ok(),
        ensures
            reads(get_u64(old(self).rest()), result, *final(self)),
    {
        proof {
            reveal(get_u64);
        }
        self.number(8)
    }

    pub fn i64(&mut self) -> (result: Result<i64, Error>)
        requires
            old(self).ok(),
        ensures
            reads(get_i64(old(self).rest()), result, *final(self)),
    {
        proof {
            reveal(get_i64);
        }
        let bits: u64 = self.u64()?;
        Ok(from_bits(bits))
    }

    pub fn flag(&mut self) -> (result: Result<bool, Error>)
        requires
            old(self).ok(),
        ensures
            reads(get_flag(old(self).rest()), result, *final(self)),
    {
        proof {
            reveal(get_flag);
        }
        let value: u8 = self.u8()?;
        if value == 0 {
            Ok(false)
        } else if value == 1 {
            Ok(true)
        } else {
            Err(Error::Invalid)
        }
    }

    /// So many bytes as they stand.
    fn raw(&mut self, length: usize) -> (result: Result<Vec<u8>, Error>)
        requires
            old(self).ok(),
        ensures
            reads(get_raw(old(self).rest(), length as nat), data_outcome(result), *final(self)),
    {
        let left: usize = self.input.len() - self.at;
        if left < length {
            return Err(Error::Invalid);
        }
        let ghost before = self.rest();
        let data = copy_range(self.input, self.at, self.at + length);
        assert(data@ =~= before.take(length as int));
        self.at = self.at + length;
        assert(self.rest() =~= before.skip(length as int));
        Ok(data)
    }

    /// A text of at least one byte.
    pub fn string(&mut self, maximum: usize) -> (result: Result<String, Error>)
        requires
            old(self).ok(),
        ensures
            reads(get_name(old(self).rest(), maximum as nat), text_outcome(result), *final(self)),
    {
        proof {
            reveal(get_name);
        }
        let length: u16 = self.u16()?;
        if length == 0 || length as usize > maximum {
            return Err(Error::Invalid);
        }
        let data = self.raw(length as usize)?;
        match decode_text(data.as_slice()) {
            Some(text) => Ok(text.to_owned()),
            None => Err(Error::Invalid),
        }
    }

    /// A text of permitted characters, perhaps empty.
    pub fn string_allow_empty(&mut self, maximum: usize) -> (result: Result<String, Error>)
        requires
            old(self).ok(),
        ensures
            reads(get_text(old(self).rest(), maximum as nat), text_outcome(result), *final(self)),
    {
        proof {
            reveal(get_text);
        }
        let length: u16 = self.u16()?;
        if length as usize > maximum {
            return Err(Error::Invalid);
        }
        let data = self.raw(length as usize)?;
        match valid_text(data.as_slice()) {
            Ok(text) => Ok(text.to_owned()),
            Err(error) => Err(error),
        }
    }

    pub fn optional_string(&mut self, maximum: usize) -> (result: Result<Option<String>, Error>)
        requires
            old(self).ok(),
        ensures
            reads(
                get_optional_text(old(self).rest(), maximum as nat),
                optional_text_outcome(result),
                *final(self),
            ),
    {
        proof {
            reveal(get_optional_text);
        }
        if !self.flag()? {
            return Ok(None);
        }
        Ok(Some(self.string_allow_empty(maximum)?))
    }

    pub fn bytes(&mut self, maximum: usize) -> (result: Result<Vec<u8>, Error>)
        requires
            old(self).ok(),
        ensures
            reads(get_data(old(self).rest(), maximum as nat), data_outcome(result), *final(self)),
    {
        proof {
            reveal(get_data);
        }
        let length: u32 = self.u32()?;
        if length as u64 > maximum as u64 {
            return Err(Error::Invalid);
        }
        self.raw(length as usize)
    }

    pub fn optional_bytes(&mut self, maximum: usize) -> (result: Result<Option<Vec<u8>>, Error>)
        requires
            old(self).ok(),
        ensures
            reads(
                get_optional_data(old(self).rest(), maximum as nat),
                optional_data_outcome(result),
                *final(self),
            ),
    {
        proof {
            reveal(get_optional_data);
        }
        if !self.flag()? {
            return Ok(None);
        }
        Ok(Some(self.bytes(maximum)?))
    }

    pub fn pairs(&mut self, number: usize, maximum: usize) -> (result: Result<
        Vec<(String, String)>,
        Error,
    >)
        requires
            old(self).ok(),
        ensures
            reads(
                get_pairs(old(self).rest(), number as nat, maximum as nat),
                pairs_outcome(result),
                *final(self),
            ),
    {
        let mut pairs: Vec<(String, String)> = Vec::new();
        let mut left: usize = number;
        let ghost goal = get_pairs(self.rest(), number as nat, maximum as nat);
        let ghost mut done: Seq<(Seq<char>, Seq<char>)> = Seq::empty();
        assert(crate::codec::v5::pair_views(pairs@) =~= done);
        proof {
            lemma_prepend(done, goal);
        }
        while left > 0
            invariant
                self.ok(),
                crate::codec::v5::pair_views(pairs@) == done,
                goal == prepended(done, get_pairs(self.rest(), left as nat, maximum as nat)),
                goal == get_pairs(old(self).rest(), number as nat, maximum as nat),
            decreases left,
        {
            let ghost step = get_pairs(self.rest(), left as nat, maximum as nat);
            let key = self.string_allow_empty(maximum)?;
            let value = self.string_allow_empty(maximum)?;
            let ghost pair = (key@, value@);
            proof {
                let tail = get_pairs(self.rest(), (left - 1) as nat, maximum as nat);
                if let Ok((more, rest)) = tail {
                    assert(done + (seq![pair] + more) =~= done.push(pair) + more);
                }
                done = done.push(pair);
            }
            let ghost before = pairs@;
            pairs.push((key, value));
            assert(crate::codec::v5::pair_views(pairs@) =~= done);
            left = left - 1;
        }
        assert(done + Seq::<(Seq<char>, Seq<char>)>::empty() =~= done);
        Ok(pairs)
    }

    /// Nothing is left to read.
    pub fn finish(&self) -> (result: Result<(), Error>)
        requires
            self.ok(),
        ensures
            result is Ok <==> self.rest().len() == 0,
            result is Err ==> result->Err_0 == Error::Invalid,
    {
        if self.at == self.input.len() {
            Ok(())
        } else {
            Err(Error::Invalid)
        }
    }
}

/// Pairs read in front of others.
spec fn prepended(
    done: Seq<(Seq<char>, Seq<char>)>,
    parsed: Parsed<Seq<(Seq<char>, Seq<char>)>>,
) -> Parsed<Seq<(Seq<char>, Seq<char>)>> {
    match parsed {
        Ok((pairs, rest)) => Ok((done + pairs, rest)),
        Err(error) => Err(error),
    }
}

proof fn lemma_prepend(done: Seq<(Seq<char>, Seq<char>)>, parsed: Parsed<Seq<(Seq<char>, Seq<char>)>>)
    requires
        done.len() == 0,
    ensures
        prepended(done, parsed) == parsed,
{
    if let Ok((pairs, rest)) = parsed {
        assert(done + pairs =~= pairs);
    }
}

pub fn put_flag(output: &mut Vec<u8>, flag: bool)
    ensures
        final(output)@ == old(output)@ + flag_bytes(flag),
{
    let ghost before = output@;
    output.push(
        if flag {
            1
        } else {
            0
        },
    );
    assert(output@ =~= before + flag_bytes(flag));
}

pub fn put_byte(output: &mut Vec<u8>, value: u8)
    ensures
        final(output)@ == old(output)@ + seq![value],
{
    let ghost before = output@;
    output.push(value);
    assert(output@ =~= before + seq![value]);
}

/// Appends a text with its length in front, unless the length does not fit.
pub fn put_string(output: &mut Vec<u8>, text: &str) -> (result: Result<(), Error>)
    ensures
        result is Ok <==> text_fits(text@),
        result is Ok ==> final(output)@ == old(output)@ + name_bytes(text@),
        result is Err ==> result->Err_0 == Error::Overloaded,
{
    proof {
        reveal(name_bytes);
    }
    let length: usize = byte_len(text);
    if length > u16::MAX as usize {
        return Err(Error::Overloaded);
    }
    let ghost before = output@;
    put_u16(output, length as u16);
    append_bytes(output, text.as_bytes());
    proof {
        lemma_join(before, be16(text_bytes(text@) as u16), encode_utf8(text@));
    }
    Ok(())
}

pub fn put_bytes(output: &mut Vec<u8>, data: &[u8]) -> (result: Result<(), Error>)
    ensures
        result is Ok <==> data@.len() <= u32::MAX,
        result is Ok ==> final(output)@ == old(output)@ + data_bytes(data@),
        result is Err ==> result->Err_0 == Error::Overloaded,
{
    proof {
        reveal(data_bytes);
    }
    let length: usize = data.len();
    if length as u64 > u32::MAX as u64 {
        return Err(Error::Overloaded);
    }
    let ghost before = output@;
    put_u32(output, length as u32);
    append_bytes(output, data);
    proof {
        lemma_join(before, be32(data@.len() as u32), data@);
    }
    Ok(())
}

pub fn put_optional_string(output: &mut Vec<u8>, text: &Option<String>) -> (result: Result<(), Error>)
    ensures
        result is Ok <==> (crate::codec::v5::text_view(*text) matches Some(t) ==> text_fits(t)),
        result is Ok ==> final(output)@ == old(output)@ + optional_name_bytes(
            crate::codec::v5::text_view(*text),
        ),
        result is Err ==> result->Err_0 == Error::Overloaded,
{
    proof {
        reveal(optional_name_bytes);
    }
    let ghost before = output@;
    match text {
        Some(text) => {
            put_flag(output, true);
            put_string(output, text.as_str())?;
            proof {
                lemma_join(before, flag_bytes(true), name_bytes(text@));
            }
        },
        None => put_flag(output, false),
    }
    Ok(())
}

pub fn put_optional_bytes(output: &mut Vec<u8>, data: &Option<Vec<u8>>) -> (result: Result<(), Error>)
    ensures
        result is Ok <==> (crate::message::vec_view(*data) matches Some(d) ==> d.len() <= u32::MAX),
        result is Ok ==> final(output)@ == old(output)@ + optional_data_bytes(
            crate::message::vec_view(*data),
        ),
        result is Err ==> result->Err_0 == Error::Overloaded,
{
    proof {
        reveal(optional_data_bytes);
    }
    let ghost before = output@;
    match data {
        Some(data) => {
            put_flag(output, true);
            put_bytes(output, data.as_slice())?;
            proof {
                lemma_join(before, flag_bytes(true), data_bytes(data@));
            }
        },
        None => put_flag(output, false),
    }
    Ok(())
}

pub fn put_pairs(output: &mut Vec<u8>, pairs: &Vec<(String, String)>) -> (result: Result<(), Error>)
    ensures
        result is Ok <==> pairs_fit(crate::codec::v5::pair_views(pairs@)),
        result is Ok ==> final(output)@ == old(output)@ + pair_list_bytes(
            crate::codec::v5::pair_views(pairs@),
        ),
        result is Err ==> result->Err_0 == Error::Overloaded,
{
    let ghost all = crate::codec::v5::pair_views(pairs@);
    let ghost goal = output@ + pair_list_bytes(all);
    let mut at: usize = 0;
    assert(all.skip(0) =~= all);
    while at < pairs.len()
        invariant
            at <= pairs.len(),
            all == crate::codec::v5::pair_views(pairs@),
            goal == output@ + pair_list_bytes(all.skip(at as int)),
            forall|i: int|
                0 <= i < at ==> text_fits((#[trigger] all[i]).0) && text_fits(all[i].1),
        decreases pairs.len() - at,
    {
        let ghost before = output@;
        let ghost left = all.skip(at as int);
        let ghost pair = all[at as int];
        assert(pair == (pairs@[at as int].0@, pairs@[at as int].1@));
        put_string(output, pairs[at].0.as_str())?;
        put_string(output, pairs[at].1.as_str())?;
        proof {
            assert(left.drop_first() =~= all.skip(at as int + 1));
            assert(left[0] == pair);
            let tail = pair_list_bytes(left.drop_first());
            lemma_join(before, name_bytes(pair.0), name_bytes(pair.1) + tail);
            lemma_join(before + name_bytes(pair.0), name_bytes(pair.1), tail);
        }
        at = at + 1;
    }
    assert(all.skip(all.len() as int) =~= Seq::empty());
    assert(output@ + Seq::<u8>::empty() =~= output@);
    Ok(())
}

} // verus!
