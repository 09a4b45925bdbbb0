//! What the trailer of an image says of the records before it.
use super::image::{
    checksum, decode_image, decode_records, read_records, trailer_magic, trailer_ok, ImageView,
    RECOVERY_HEADER_BYTES, RECOVERY_TRAILER_BYTES,
};
use super::record::{apply_record, RECORD_RETAINED};
use super::snapshot::{blank, SnapshotView, RECOVERY_VERSION_V3};
use crate::limits::Limits;
use crate::number::{be, lemma_power256, lemma_to_be_of_be};
use vstd::prelude::*;

verus! {

/// An image that is accepted and ends with a trailer.
pub open spec fn sealed(input: Seq<u8>, limits: Limits) -> bool {
    &&& decode_image(input, limits) matches Ok(ImageView::Snapshot(_))
    &&& be(input.subrange(4, 8)) >= RECOVERY_VERSION_V3
}

/// Where the trailer of an image begins.
pub open spec fn trailer_start(input: Seq<u8>) -> int {
    input.len() - RECOVERY_TRAILER_BYTES
}

/// The records of an image.
pub open spec fn records_of(input: Seq<u8>) -> Seq<u8> {
    input.subrange(RECOVERY_HEADER_BYTES as int, trailer_start(input))
}

/// The image with other records between its header and its trailer.
pub open spec fn with_records(input: Seq<u8>, records: Seq<u8>) -> Seq<u8> {
    input.take(RECOVERY_HEADER_BYTES as int) + records + input.skip(trailer_start(input))
}

/// The header and the trailer of an accepted image are there, and the trailer fits the records.
proof fn lemma_sealed(input: Seq<u8>, limits: Limits)
    requires
        sealed(input, limits),
    ensures
        input.len() >= RECOVERY_HEADER_BYTES + RECOVERY_TRAILER_BYTES,
        ({
            let version = be(input.subrange(4, 8)) as u32;
            let generation = be(input.subrange(8, 16)) as u64;
            let start = blank(version, generation);
            &&& version >= RECOVERY_VERSION_V3
            &&& read_records(records_of(input), limits, version, start, false, 0) matches Ok((
                _,
                number,
            )) && trailer_ok(
                input.take(16),
                records_of(input),
                input.skip(trailer_start(input)),
                number,
            )
        }),
{
    reveal(decode_image);
    reveal(decode_records);
    lemma_power256();
    lemma_to_be_of_be(input.subrange(4, 8));
}

/// Reading goes on behind whole records where it stopped.
proof fn lemma_read_on(
    front: Seq<u8>,
    rest: Seq<u8>,
    limits: Limits,
    version: u32,
    snapshot: SnapshotView,
    phase: bool,
    number: nat,
)
    requires
        read_records(front, limits, version, snapshot, phase, number) is Ok,
    ensures
        exists|late: bool|
            read_records(front + rest, limits, version, snapshot, phase, number)
                == #[trigger] read_records(
                rest,
                limits,
                version,
                read_records(front, limits, version, snapshot, phase, number)->Ok_0.0,
                late,
                read_records(front, limits, version, snapshot, phase, number)->Ok_0.1,
            ),
    decreases front.len(),
{
    let all = front + rest;
    if front.len() == 0 {
        assert(all =~= rest);
    } else {
        let length = be(front.subrange(1, 5)) as int;
        let payload = front.subrange(5, 5 + length);
        let after = front.skip(37 + length);
        let next = apply_record(snapshot, limits, version, front[0], payload)->Ok_0;
        let late = front[0] == RECORD_RETAINED;
        assert(all.subrange(1, 5) =~= front.subrange(1, 5));
        assert(all.subrange(5, 5 + length) =~= payload);
        assert(all.subrange(5 + length, 37 + length) =~= front.subrange(5 + length, 37 + length));
        assert(all.skip(37 + length) =~= after + rest);
        lemma_read_on(after, rest, limits, version, next, late, number + 1);
    }
}

/// A trailer is no record.
proof fn lemma_trailer_unread(
    tail: Seq<u8>,
    limits: Limits,
    version: u32,
    snapshot: SnapshotView,
    phase: bool,
    number: nat,
)
    requires
        tail.len() == RECOVERY_TRAILER_BYTES,
        tail.take(4) == trailer_magic(),
    ensures
        read_records(tail, limits, version, snapshot, phase, number) is Err,
{
    let field = tail.subrange(1, 5);
    assert(tail[1] == tail.take(4)[1]);
    assert(be(field) >= 0x45) by {
        reveal_with_fuel(be, 5);
        let three = field.drop_last();
        let two = three.drop_last();
        let one = two.drop_last();
        assert(one.last() == 0x45u8);
        assert(be(one) >= 0x45);
        assert(be(two) >= be(one));
        assert(be(three) >= be(two));
    }
}

/// An accepted image is what its trailer says: with other records between the same header and the
/// same trailer it is refused, unless they have the same length and, with the header, the same
/// digest. So a record that is missing or one too many is noticed whatever it holds.
pub proof fn law_altered_records_are_refused(input: Seq<u8>, records: Seq<u8>, limits: Limits)
    requires
        sealed(input, limits),
    ensures
        decode_image(with_records(input, records), limits) is Ok ==> records.len() == records_of(
            input,
        ).len() && checksum(input.take(16) + records) == checksum(
            input.take(16) + records_of(input),
        ),
        records.len() != records_of(input).len() ==> decode_image(
            with_records(input, records),
            limits,
        ) is Err,
{
    lemma_sealed(input, limits);
    let other = with_records(input, records);
    let end = trailer_start(input);
    if decode_image(other, limits) is Ok {
        assert(other.subrange(4, 8) =~= input.subrange(4, 8));
        assert(other.take(4) =~= input.take(4));
        assert(sealed(other, limits)) by {
            reveal(decode_image);
            reveal(decode_records);
            lemma_power256();
            lemma_to_be_of_be(input.subrange(4, 8));
        }
        lemma_sealed(other, limits);
        assert(records_of(other) =~= records);
        assert(other.take(16) =~= input.take(16));
        assert(other.skip(trailer_start(other)) =~= input.skip(end));
    }
}

/// An accepted image without its trailer is refused.
pub proof fn law_image_without_trailer_is_refused(input: Seq<u8>, limits: Limits)
    requires
        sealed(input, limits),
    ensures
        decode_image(input.take(trailer_start(input)), limits) is Err,
{
    lemma_sealed(input, limits);
    let end = trailer_start(input);
    let other = input.take(end);
    if decode_image(other, limits) is Ok {
        assert(other.subrange(4, 8) =~= input.subrange(4, 8));
        assert(other.subrange(8, 16) =~= input.subrange(8, 16)) by {
            reveal(decode_image);
            reveal(decode_records);
            lemma_power256();
            lemma_to_be_of_be(input.subrange(4, 8));
        }
        assert(sealed(other, limits)) by {
            reveal(decode_image);
            reveal(decode_records);
            lemma_power256();
            lemma_to_be_of_be(input.subrange(4, 8));
        }
        lemma_sealed(other, limits);
        let version = be(input.subrange(4, 8)) as u32;
        let start = blank(version, be(input.subrange(8, 16)) as u64);
        let front = records_of(other);
        let tail = other.skip(trailer_start(other));
        assert(records_of(input) =~= front + tail);
        lemma_read_on(front, tail, limits, version, start, false, 0);
        let (snapshot, number) = read_records(front, limits, version, start, false, 0)->Ok_0;
        let late = choose|late: bool|
            read_records(front + tail, limits, version, start, false, 0)
                == #[trigger] read_records(tail, limits, version, snapshot, late, number);
        lemma_trailer_unread(tail, limits, version, snapshot, late, number);
    }
}

/// What stands before a trailer determines it: an accepted image of which any bit of the trailer
/// is changed is refused.
pub proof fn law_altered_trailer_is_refused(input: Seq<u8>, tail: Seq<u8>, limits: Limits)
    requires
        sealed(input, limits),
        tail.len() == RECOVERY_TRAILER_BYTES,
        tail != input.skip(trailer_start(input)),
    ensures
        decode_image(input.take(trailer_start(input)) + tail, limits) is Err,
{
    lemma_sealed(input, limits);
    let end = trailer_start(input);
    let other = input.take(end) + tail;
    let own = input.skip(end);
    if decode_image(other, limits) is Ok {
        assert(other.subrange(4, 8) =~= input.subrange(4, 8));
        assert(other.subrange(8, 16) =~= input.subrange(8, 16));
        assert(sealed(other, limits)) by {
            reveal(decode_image);
            reveal(decode_records);
            lemma_power256();
            lemma_to_be_of_be(input.subrange(4, 8));
        }
        lemma_sealed(other, limits);
        assert(trailer_start(other) == end);
        assert(records_of(other) =~= records_of(input));
        assert(other.take(16) =~= input.take(16));
        assert(other.skip(end) =~= tail);
        lemma_to_be_of_be(tail.subrange(4, 12));
        lemma_to_be_of_be(own.subrange(4, 12));
        lemma_to_be_of_be(tail.subrange(12, 20));
        lemma_to_be_of_be(own.subrange(12, 20));
        assert(tail =~= tail.take(4) + tail.subrange(4, 12) + tail.subrange(12, 20) + tail.skip(
            20,
        ));
        assert(own =~= own.take(4) + own.subrange(4, 12) + own.subrange(12, 20) + own.skip(20));
    }
}

} // verus!
