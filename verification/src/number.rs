//! Big-endian numbers and byte vectors.
use vstd::prelude::*;

verus! {

/// The number that bytes stand for, most significant first.
pub open spec fn be(bytes: Seq<u8>) -> nat
    decreases bytes.len(),
{
    if bytes.len() == 0 {
        0
    } else {
        be(bytes.drop_last()) * 256 + bytes.last() as nat
    }
}

/// A number as `width` bytes, most significant first; higher digits are dropped.
pub open spec fn to_be(value: nat, width: nat) -> Seq<u8>
    decreases width,
{
    if width == 0 {
        Seq::empty()
    } else {
        to_be(value / 256, (width - 1) as nat).push((value % 256) as u8)
    }
}

pub open spec fn power256(width: nat) -> nat
    decreases width,
{
    if width == 0 {
        1
    } else {
        256 * power256((width - 1) as nat)
    }
}

pub proof fn lemma_to_be_len(value: nat, width: nat)
    ensures
        to_be(value, width).len() == width,
    decreases width,
{
    if width > 0 {
        lemma_to_be_len(value / 256, (width - 1) as nat);
    }
}

/// Reading back what was written gives the number, if it fits.
pub proof fn lemma_be_round_trip(value: nat, width: nat)
    requires
        value < power256(width),
    ensures
        be(to_be(value, width)) == value,
    decreases width,
{
    if width > 0 {
        let high = value / 256;
        assert(high < power256((width - 1) as nat)) by (nonlinear_arith)
            requires
                value < 256 * power256((width - 1) as nat),
                high == value / 256,
        ;
        lemma_be_round_trip(high, (width - 1) as nat);
        let bytes = to_be(value, width);
        assert(bytes.drop_last() =~= to_be(high, (width - 1) as nat));
    }
}

/// Writing what was read gives the bytes back.
pub proof fn lemma_to_be_of_be(bytes: Seq<u8>)
    ensures
        to_be(be(bytes), bytes.len()) == bytes,
        be(bytes) < power256(bytes.len()),
    decreases bytes.len(),
{
    if bytes.len() > 0 {
        let front = bytes.drop_last();
        lemma_to_be_of_be(front);
        let value = be(bytes);
        assert(value / 256 == be(front) && value % 256 == bytes.last() as nat) by (nonlinear_arith)
            requires
                value == be(front) * 256 + bytes.last() as nat,
                (bytes.last() as nat) < 256,
        ;
        assert(to_be(value, bytes.len()) =~= bytes);
        assert(value < 256 * power256(front.len())) by (nonlinear_arith)
            requires
                value == be(front) * 256 + bytes.last() as nat,
                (bytes.last() as nat) < 256,
                be(front) < power256(front.len()),
        ;
    }
}

pub proof fn lemma_power256()
    ensures
        power256(0) == 1,
        power256(1) == 0x100,
        power256(2) == 0x1_0000,
        power256(4) == 0x1_0000_0000,
        power256(8) == 0x1_0000_0000_0000_0000,
{
    reveal_with_fuel(power256, 9);
}

pub open spec fn be16(value: u16) -> Seq<u8> {
    to_be(value as nat, 2)
}

pub open spec fn be32(value: u32) -> Seq<u8> {
    to_be(value as nat, 4)
}

pub open spec fn be64(value: u64) -> Seq<u8> {
    to_be(value as nat, 8)
}

/// The bit pattern of a signed number as an unsigned one.
pub open spec fn bits_of(value: i64) -> u64 {
    if value >= 0 {
        value as u64
    } else {
        (value + 0x1_0000_0000_0000_0000) as u64
    }
}

pub open spec fn signed_of(bits: u64) -> i64 {
    if bits < 0x8000_0000_0000_0000 {
        bits as i64
    } else {
        (bits - 0x1_0000_0000_0000_0000) as i64
    }
}

pub proof fn lemma_be16(value: u16)
    ensures
        be16(value) == seq![(value / 256) as u8, (value % 256) as u8],
        be(be16(value)) == value,
{
    reveal_with_fuel(to_be, 3);
    lemma_power256();
    lemma_be_round_trip(value as nat, 2);
    assert(be16(value) =~= seq![(value / 256) as u8, (value % 256) as u8]);
}

/// Appends bytes to a vector.
pub fn append_bytes(output: &mut Vec<u8>, bytes: &[u8])
    ensures
        final(output)@ == old(output)@ + bytes@,
{
    let mut at: usize = 0;
    let ghost before = output@;
    while at < bytes.len()
        invariant
            at <= bytes@.len(),
            output@ == before + bytes@.take(at as int),
        decreases bytes.len() - at,
    {
        output.push(bytes[at]);
        at = at + 1;
        assert(bytes@.take(at as int) =~= bytes@.take(at as int - 1).push(bytes@[at as int - 1]));
        assert(before + bytes@.take(at as int) =~= (before + bytes@.take(at as int - 1)).push(
            bytes@[at as int - 1],
        ));
    }
    assert(bytes@.take(bytes@.len() as int) =~= bytes@);
}

pub fn copy_bytes(bytes: &[u8]) -> (copy: Vec<u8>)
    ensures
        copy@ == bytes@,
{
    let mut copy: Vec<u8> = Vec::new();
    append_bytes(&mut copy, bytes);
    assert(copy@ =~= bytes@);
    copy
}

/// The bytes from `start` to `end`.
pub fn copy_range(bytes: &[u8], start: usize, end: usize) -> (copy: Vec<u8>)
    requires
        start <= end <= bytes@.len(),
    ensures
        copy@ == bytes@.subrange(start as int, end as int),
{
    copy_bytes(vstd::slice::slice_subrange(bytes, start, end))
}

pub fn same_bytes(left: &[u8], right: &[u8]) -> (same: bool)
    ensures
        same == (left@ == right@),
{
    if left.len() != right.len() {
        return false;
    }
    let mut at: usize = 0;
    while at < left.len()
        invariant
            at <= left@.len(),
            left@.len() == right@.len(),
            forall|i: int| 0 <= i < at ==> left@[i] == right@[i],
        decreases left.len() - at,
    {
        if left[at] != right[at] {
            assert(left@[at as int] != right@[at as int]);
            return false;
        }
        at = at + 1;
    }
    assert(left@ =~= right@);
    true
}

pub fn put_u16(output: &mut Vec<u8>, value: u16)
    ensures
        final(output)@ == old(output)@ + be16(value),
{
    proof {
        lemma_be16(value);
    }
    let ghost before = output@;
    output.push((value / 256) as u8);
    output.push((value % 256) as u8);
    assert(output@ =~= before + be16(value));
}

/// Appends the low `width` bytes of a number.
fn put_be(output: &mut Vec<u8>, value: u64, width: usize)
    requires
        width <= 8,
    ensures
        final(output)@ == old(output)@ + to_be(value as nat, width as nat),
    decreases width,
{
    let ghost before = output@;
    if width > 0 {
        put_be(output, value / 256, width - 1);
        output.push((value % 256) as u8);
        assert(output@ =~= before + to_be(value as nat, width as nat));
    } else {
        assert(output@ =~= before + to_be(value as nat, 0));
    }
}

pub fn put_u32(output: &mut Vec<u8>, value: u32)
    ensures
        final(output)@ == old(output)@ + be32(value),
{
    put_be(output, value as u64, 4);
}

pub fn put_u64(output: &mut Vec<u8>, value: u64)
    ensures
        final(output)@ == old(output)@ + be64(value),
{
    put_be(output, value, 8);
}

/// The unsigned number with the same bits.
pub fn to_bits(value: i64) -> (bits: u64)
    ensures
        bits == bits_of(value),
{
    if value >= 0 {
        value as u64
    } else {
        (value + i64::MAX + 1) as u64 + 0x8000_0000_0000_0000
    }
}

/// The signed number with the same bits.
pub fn from_bits(bits: u64) -> (value: i64)
    ensures
        value == signed_of(bits),
{
    if bits < 0x8000_0000_0000_0000 {
        bits as i64
    } else {
        (bits - 0x8000_0000_0000_0000) as i64 - i64::MAX - 1
    }
}

pub fn put_i64(output: &mut Vec<u8>, value: i64)
    ensures
        final(output)@ == old(output)@ + be64(bits_of(value)),
{
    put_u64(output, to_bits(value));
}

/// The big-endian number in `bytes[start..start + width]`.
pub fn read_be(bytes: &[u8], start: usize, width: usize) -> (value: u64)
    requires
        width <= 8,
        start + width <= bytes@.len(),
    ensures
        value == be(bytes@.subrange(start as int, start + width)),
{
    let mut value: u64 = 0;
    let mut at: usize = 0;
    let total: usize = bytes.len();
    proof {
        reveal_with_fuel(power256, 9);
    }
    while at < width
        invariant
            at <= width <= 8,
            start + width <= total == bytes@.len(),
            value == be(bytes@.subrange(start as int, start + at)),
            value < power256(at as nat),
        decreases width - at,
    {
        let ghost part = bytes@.subrange(start as int, start + at + 1);
        proof {
            reveal_with_fuel(power256, 9);
            assert(part.drop_last() =~= bytes@.subrange(start as int, start + at));
            assert(power256(at as nat + 1) == 256 * power256(at as nat));
            assert(power256(at as nat + 1) <= power256(8));
            lemma_power256();
        }
        value = value * 256 + bytes[start + at] as u64;
        at = at + 1;
    }
    value
}

} // verus!
