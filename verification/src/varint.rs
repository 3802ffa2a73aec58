//! The variable-length integers of QUIC.
//!
//! The two top bits of the first byte say how many bytes the integer takes: 1,
//! 2, 4 or 8. The bits that are left hold the value, most significant first.

use bytes::BytesMut;
use vstd::arithmetic::power::*;
use vstd::prelude::*;

use crate::buffer;
use crate::quic_framed::QuicFramedError;

verus! {

/// One more than the largest value that an integer of `width` bytes holds.
pub open spec fn varint_limit(width: nat) -> nat {
    if width == 1 {
        0x40
    } else if width == 2 {
        0x4000
    } else if width == 4 {
        0x4000_0000
    } else {
        0x4000_0000_0000_0000
    }
}

/// The two bits that announce an integer of `width` bytes.
pub open spec fn varint_tag(width: nat) -> nat {
    if width == 1 {
        0
    } else if width == 2 {
        1
    } else if width == 4 {
        2
    } else {
        3
    }
}

/// The number of bytes that `value` is written in: the smallest width that holds it.
pub open spec fn varint_width(value: u64) -> nat {
    if value < varint_limit(1) {
        1
    } else if value < varint_limit(2) {
        2
    } else if value < varint_limit(4) {
        4
    } else {
        8
    }
}

/// The low `width` bytes of `n`, most significant first.
pub open spec fn be_bytes(n: nat, width: nat) -> Seq<u8>
    decreases width,
{
    if width == 0 {
        Seq::empty()
    } else {
        be_bytes(n / 256, (width - 1) as nat).push((n % 256) as u8)
    }
}

/// The number that `bytes` spells, most significant byte first.
pub open spec fn be_value(bytes: Seq<u8>) -> nat
    decreases bytes.len(),
{
    if bytes.len() == 0 {
        0
    } else {
        be_value(bytes.drop_last()) * 256 + bytes.last() as nat
    }
}

/// The wire form of `value`. Of a value that no width holds, the low 62 bits are written.
pub open spec fn wire_form(value: u64) -> Seq<u8> {
    let width = varint_width(value);
    be_bytes(varint_tag(width) * varint_limit(width) + value as nat % varint_limit(width), width)
}

/// The number of bytes of an integer whose first byte is `first`.
pub open spec fn announced_width(first: u8) -> nat {
    if first < 0x40 {
        1
    } else if first < 0x80 {
        2
    } else if first < 0xc0 {
        4
    } else {
        8
    }
}

/// The integer at the front of `bytes` and the number of bytes it takes, or
/// `None` where `bytes` ends before the integer does.
pub open spec fn value_at(bytes: Seq<u8>) -> Option<(nat, nat)> {
    if bytes.len() == 0 || bytes.len() < announced_width(bytes[0]) {
        None
    } else {
        let width = announced_width(bytes[0]);
        let untagged = bytes.take(width as int).update(0, (bytes[0] % 0x40) as u8);
        Some((be_value(untagged), width))
    }
}

/// [`be_bytes`] byte by byte, for the widths that an integer can have.
proof fn lemma_be_bytes(n: nat)
    ensures
        be_bytes(n, 1) == seq![(n % 256) as u8],
        be_bytes(n, 2) == seq![((n / 256) % 256) as u8, (n % 256) as u8],
        ({
            let n1 = n / 256;
            let n2 = n1 / 256;
            let n3 = n2 / 256;
            be_bytes(n, 4) == seq![
                (n3 % 256) as u8,
                (n2 % 256) as u8,
                (n1 % 256) as u8,
                (n % 256) as u8,
            ]
        }),
        ({
            let n1 = n / 256;
            let n2 = n1 / 256;
            let n3 = n2 / 256;
            let n4 = n3 / 256;
            let n5 = n4 / 256;
            let n6 = n5 / 256;
            let n7 = n6 / 256;
            be_bytes(n, 8) == seq![
                (n7 % 256) as u8,
                (n6 % 256) as u8,
                (n5 % 256) as u8,
                (n4 % 256) as u8,
                (n3 % 256) as u8,
                (n2 % 256) as u8,
                (n1 % 256) as u8,
                (n % 256) as u8,
            ]
        }),
{
    reveal_with_fuel(be_bytes, 9);
}

/// The bytes that [`encode_varint`] writes, one by one.
proof fn lemma_wire_bytes(value: u64)
    ensures
        value < 0x40 ==> wire_form(value) == seq![value as u8],
        0x40 <= value < 0x4000 ==> wire_form(value) == seq![
            (0x40 | (value >> 8)) as u8,
            value as u8,
        ],
        0x4000 <= value < 0x4000_0000 ==> wire_form(value) == seq![
            0x80 | (value >> 24) as u8,
            (value >> 16) as u8,
            (value >> 8) as u8,
            value as u8,
        ],
        0x4000_0000 <= value ==> wire_form(value) == seq![
            0xc0 | (value >> 56) as u8,
            (value >> 48) as u8,
            (value >> 40) as u8,
            (value >> 32) as u8,
            (value >> 24) as u8,
            (value >> 16) as u8,
            (value >> 8) as u8,
            value as u8,
        ],
{
    if value < 0x40 {
        lemma_be_bytes(value as nat);
        assert(wire_form(value) == be_bytes(0 * 0x40 + value as nat % 0x40, 1));
    } else if value < 0x4000 {
        let n = (0x4000 + value) as u64;
        assert((n / 256) % 256 == (0x40 | (value >> 8)) as u8 && n % 256 == value as u8)
            by (bit_vector)
            requires
                n == 0x4000 + value,
                value < 0x4000,
        ;
        lemma_be_bytes(n as nat);
        assert(wire_form(value) == be_bytes(1 * 0x4000 + value as nat % 0x4000, 2));
    } else if value < 0x4000_0000 {
        let n = (0x8000_0000 + value) as u64;
        assert({
            let n1 = n / 256;
            let n2 = n1 / 256;
            let n3 = n2 / 256;
            &&& n3 % 256 == 0x80 | (value >> 24) as u8
            &&& n2 % 256 == (value >> 16) as u8
            &&& n1 % 256 == (value >> 8) as u8
            &&& n % 256 == value as u8
        }) by (bit_vector)
            requires
                n == 0x8000_0000 + value,
                value < 0x4000_0000,
        ;
        lemma_be_bytes(n as nat);
        assert(wire_form(value) == be_bytes(2 * 0x4000_0000 + value as nat % 0x4000_0000, 4));
    } else {
        let n = (0xc000_0000_0000_0000 + value % 0x4000_0000_0000_0000) as u64;
        assert({
            let n1 = n / 256;
            let n2 = n1 / 256;
            let n3 = n2 / 256;
            let n4 = n3 / 256;
            let n5 = n4 / 256;
            let n6 = n5 / 256;
            let n7 = n6 / 256;
            &&& n7 % 256 == 0xc0 | (value >> 56) as u8
            &&& n6 % 256 == (value >> 48) as u8
            &&& n5 % 256 == (value >> 40) as u8
            &&& n4 % 256 == (value >> 32) as u8
            &&& n3 % 256 == (value >> 24) as u8
            &&& n2 % 256 == (value >> 16) as u8
            &&& n1 % 256 == (value >> 8) as u8
            &&& n % 256 == value as u8
        }) by (bit_vector)
            requires
                n == 0xc000_0000_0000_0000 + value % 0x4000_0000_0000_0000,
        ;
        lemma_be_bytes(n as nat);
        assert(wire_form(value) == be_bytes(
            3 * 0x4000_0000_0000_0000 + value as nat % 0x4000_0000_0000_0000,
            8,
        ));
    }
}

/// Appends `value` to `buf` as a variable-length integer.
///
/// Returns the number of bytes written.
pub fn encode_varint(buf: &mut BytesMut, value: u64) -> (written: usize)
    requires
        buffer::buffered(*old(buf)).len() + 8 <= isize::MAX,
    ensures
        buffer::buffered(*final(buf)) == buffer::buffered(*old(buf)) + wire_form(value),
        written == wire_form(value).len(),
{
    proof {
        lemma_wire_bytes(value);
    }
    if value < 0x40 {
        let b: [u8; 1] = [value as u8];
        buf.extend_from_slice(&b);
        assert(b@ =~= wire_form(value));
        1
    } else if value < 0x4000 {
        let b: [u8; 2] = [
            #[verifier::truncate]
            ((0x40 | (value >> 8)) as u8),
            #[verifier::truncate]
            (value as u8),
        ];
        buf.extend_from_slice(&b);
        assert(b@ =~= wire_form(value));
        2
    } else if value < 0x4000_0000 {
        let mut b: [u8; 4] = [0u8; 4];
        b[0] = 0x80 | (value >> 24) as u8;
        b[1] = (value >> 16) as u8;
        b[2] = (value >> 8) as u8;
        b[3] = value as u8;
        buf.extend_from_slice(&b);
        assert(b@ =~= wire_form(value));
        4
    } else {
        let mut b: [u8; 8] = [0u8; 8];
        b[0] = 0xc0 | (value >> 56) as u8;
        b[1] = (value >> 48) as u8;
        b[2] = (value >> 40) as u8;
        b[3] = (value >> 32) as u8;
        b[4] = (value >> 24) as u8;
        b[5] = (value >> 16) as u8;
        b[6] = (value >> 8) as u8;
        b[7] = value as u8;
        buf.extend_from_slice(&b);
        assert(b@ =~= wire_form(value));
        8
    }
}

/// The number of values that the first `width` bytes of an integer can hold.
spec fn byte_limit(width: nat) -> nat
    decreases width,
{
    if width <= 1 {
        0x40
    } else {
        256 * byte_limit((width - 1) as nat)
    }
}

/// The first byte of an integer: two bits for the width, six for the value.
proof fn lemma_first_byte(first: u8)
    ensures
        first >> 6 <= 3,
        first & 0x3f == first % 0x40,
        announced_width(first) == (if first >> 6 == 0 {
            1nat
        } else if first >> 6 == 1 {
            2
        } else if first >> 6 == 2 {
            4
        } else {
            8
        }),
{
    assert(first >> 6 == first / 0x40 && first >> 6 <= 3 && first & 0x3f == first % 0x40)
        by (bit_vector);
}

/// Try to decode a variable-length integer from the front of `buf`.
///
/// Returns `Ok(Some((value, consumed)))` if successful and `Ok(None)` if there is
/// not enough data. No byte string is an invalid integer, so there is no `Err`.
pub fn decode_varint(buf: &[u8]) -> (res: Result<Option<(u64, usize)>, QuicFramedError>)
    ensures
        value_at(buf@) is None ==> res matches Ok(None),
        value_at(buf@) matches Some((value, consumed)) ==> {
            &&& res matches Ok(Some(found))
            &&& found.0 == value
            &&& found.1 == consumed
        },
{
    if buf.len() == 0 {
        return Ok(None);
    }
    let first: u8 = buf[0];
    proof {
        lemma_first_byte(first);
    }
    let len: usize = match first >> 6 {
        0 => 1,
        1 => 2,
        2 => 4,
        _ => 8,
    };
    if buf.len() < len {
        return Ok(None);
    }
    let mut value: u64 = (first & 0x3f) as u64;
    let mut i: usize = 1;
    let ghost cleared = buf@.take(len as int).update(0, (first % 0x40) as u8);
    assert(be_value(cleared.take(1)) == value) by {
        reveal_with_fuel(be_value, 2);
    }
    while i < len
        invariant
            1 <= i <= len <= 8,
            len <= buf@.len(),
            cleared == buf@.take(len as int).update(0, (first % 0x40) as u8),
            value == be_value(cleared.take(i as int)),
            value < byte_limit(i as nat),
        decreases len - i,
    {
        let byte: u8 = buf[i];
        proof {
            assert(byte_limit(i as nat) <= 0x40_0000_0000_0000) by {
                reveal_with_fuel(byte_limit, 8);
            }
            assert((value << 8) | byte as u64 == value * 256 + byte) by (bit_vector)
                requires
                    value < 0x40_0000_0000_0000,
            ;
            assert(cleared.take(i + 1).drop_last() =~= cleared.take(i as int));
        }
        value = (value << 8) | byte as u64;
        i = i + 1;
    }
    assert(cleared.take(len as int) =~= cleared);
    Ok(Some((value, len)))
}

/// [`be_value`] undoes [`be_bytes`], up to what `width` bytes can hold.
proof fn lemma_be_value(n: nat, width: nat)
    ensures
        be_bytes(n, width).len() == width,
        n < pow(256, width) ==> be_value(be_bytes(n, width)) == n,
    decreases width,
{
    if width == 0 {
        lemma_pow0(256);
    } else {
        let shorter = (width - 1) as nat;
        lemma_be_value(n / 256, shorter);
        reveal(pow);
        assert(be_bytes(n, width).drop_last() =~= be_bytes(n / 256, shorter));
    }
}

/// Clearing the tag bits of a written integer leaves its value alone.
proof fn lemma_untagged(value: u64)
    ensures
        wire_form(value).len() == varint_width(value),
        announced_width(wire_form(value)[0]) == varint_width(value),
        wire_form(value).update(0, (wire_form(value)[0] % 0x40) as u8) == be_bytes(
            value as nat % varint_limit(8),
            varint_width(value),
        ),
{
    let low = value % 0x4000_0000_0000_0000;
    lemma_wire_bytes(value);
    lemma_be_bytes(low as nat);
    let first = wire_form(value)[0];
    let cleared = wire_form(value).update(0, (first % 0x40) as u8);
    if value < 0x40 {
        assert(cleared =~= be_bytes(low as nat, 1));
    } else if value < 0x4000 {
        assert({
            let lead: u8 = (0x40 | (value >> 8)) as u8;
            &&& 0x40u8 <= lead && lead < 0x80u8
            &&& (value / 256) % 256 == lead % 0x40
            &&& value % 256 == value as u8
        }) by (bit_vector)
            requires
                value < 0x4000,
        ;
        assert(cleared =~= be_bytes(low as nat, 2));
    } else if value < 0x4000_0000 {
        assert({
            let lead: u8 = 0x80 | (value >> 24) as u8;
            let n1 = value / 256;
            let n2 = n1 / 256;
            let n3 = n2 / 256;
            &&& 0x80u8 <= lead && lead < 0xc0u8
            &&& n3 % 256 == lead % 0x40
            &&& n2 % 256 == (value >> 16) as u8
            &&& n1 % 256 == (value >> 8) as u8
            &&& value % 256 == value as u8
        }) by (bit_vector)
            requires
                value < 0x4000_0000,
        ;
        assert(cleared =~= be_bytes(low as nat, 4));
    } else {
        assert({
            let lead: u8 = 0xc0 | (value >> 56) as u8;
            let n1 = low / 256;
            let n2 = n1 / 256;
            let n3 = n2 / 256;
            let n4 = n3 / 256;
            let n5 = n4 / 256;
            let n6 = n5 / 256;
            let n7 = n6 / 256;
            &&& 0xc0u8 <= lead
            &&& n7 % 256 == lead % 0x40
            &&& n6 % 256 == (value >> 48) as u8
            &&& n5 % 256 == (value >> 40) as u8
            &&& n4 % 256 == (value >> 32) as u8
            &&& n3 % 256 == (value >> 24) as u8
            &&& n2 % 256 == (value >> 16) as u8
            &&& n1 % 256 == (value >> 8) as u8
            &&& low % 256 == value as u8
        }) by (bit_vector)
            requires
                low == value % 0x4000_0000_0000_0000,
        ;
        assert(cleared =~= be_bytes(low as nat, 8));
    }
}

/// What is written is read back: whatever follows it, an integer that was
/// encoded decodes to its low 62 bits, and to just the bytes it was written in.
pub proof fn varint_read_back(value: u64, rest: Seq<u8>)
    ensures
        value_at(wire_form(value) + rest) == Some(
            (value as nat % varint_limit(8), wire_form(value).len()),
        ),
{
    let width = varint_width(value);
    let n = value as nat % varint_limit(8);
    let bytes = wire_form(value) + rest;
    lemma_untagged(value);
    lemma_be_value(n, width);
    assert(n < pow(256, width)) by {
        reveal_with_fuel(pow, 9);
    }
    assert(bytes.take(width as int) =~= wire_form(value));
}

/// Every value below 2^62 survives a round trip, and the decoder consumes
/// exactly the bytes that the encoder wrote.
pub proof fn varint_roundtrip(value: u64)
    requires
        value < varint_limit(8),
    ensures
        value_at(wire_form(value)) == Some((value as nat, wire_form(value).len())),
{
    varint_read_back(value, Seq::empty());
    assert(wire_form(value) + Seq::<u8>::empty() =~= wire_form(value));
}

/// An integer is written in 1, 2, 4 or 8 bytes, and no smaller width holds it.
pub proof fn varint_is_shortest(value: u64)
    ensures
        wire_form(value).len() == varint_width(value),
        value < 0x40 <==> wire_form(value).len() == 1,
        value < 0x4000 <==> wire_form(value).len() <= 2,
        value < 0x4000_0000 <==> wire_form(value).len() <= 4,
        wire_form(value).len() <= 8,
{
    lemma_untagged(value);
}

/// Cut short anywhere, a written integer reads as "not enough data".
pub proof fn varint_cut_short(value: u64, at: int)
    requires
        0 <= at < wire_form(value).len(),
    ensures
        value_at(wire_form(value).take(at)) is None,
{
    lemma_untagged(value);
}

/// Once an integer is complete, bytes that arrive after it do not change it.
pub proof fn varint_ignores_what_follows(bytes: Seq<u8>, more: Seq<u8>)
    requires
        value_at(bytes) is Some,
    ensures
        value_at(bytes + more) == value_at(bytes),
{
    let width = announced_width(bytes[0]) as int;
    assert((bytes + more).take(width) =~= bytes.take(width));
}

/// A decoded integer lies below 2^62 and takes between 1 and 8 of the bytes at hand.
pub proof fn varint_in_range(bytes: Seq<u8>)
    ensures
        value_at(bytes) matches Some((value, consumed)) ==> {
            &&& value < varint_limit(8)
            &&& 1 <= consumed <= 8
            &&& consumed <= bytes.len()
        },
{
    if value_at(bytes) is Some {
        let width = announced_width(bytes[0]);
        let untagged = bytes.take(width as int).update(0, (bytes[0] % 0x40) as u8);
        lemma_untagged_value(untagged, width);
        assert(byte_limit(width) <= varint_limit(8)) by {
            reveal_with_fuel(byte_limit, 9);
        }
        assert(untagged.take(width as int) =~= untagged);
    }
}

/// The value of the first `width` bytes, where the first holds six bits.
proof fn lemma_untagged_value(bytes: Seq<u8>, width: nat)
    requires
        1 <= width <= bytes.len(),
        bytes[0] < 0x40,
    ensures
        be_value(bytes.take(width as int)) < byte_limit(width),
    decreases width,
{
    if width == 1 {
        reveal_with_fuel(be_value, 2);
    } else {
        let shorter = (width - 1) as nat;
        lemma_untagged_value(bytes, shorter);
        assert(bytes.take(width as int).drop_last() =~= bytes.take(shorter as int));
    }
}

/// How an integer stands on the wire: read as one big-endian number, its bytes
/// are the value with the two bits for the width on top.
pub proof fn varint_layout(value: u64)
    ensures
        ({
            let w = wire_form(value);
            &&& value < 0x40 ==> w.len() == 1 && w[0] == value
            &&& 0x40 <= value < 0x4000 ==> w.len() == 2 && w[0] * 0x100 + w[1] == 0x4000 + value
            &&& 0x4000 <= value < 0x4000_0000 ==> w.len() == 4 && w[0] * 0x100_0000 + w[1]
                * 0x1_0000 + w[2] * 0x100 + w[3] == 0x8000_0000 + value
            &&& 0x4000_0000 <= value ==> w.len() == 8 && w[0] * 0x100_0000_0000_0000 + w[1]
                * 0x1_0000_0000_0000 + w[2] * 0x100_0000_0000 + w[3] * 0x1_0000_0000 + w[4]
                * 0x100_0000 + w[5] * 0x1_0000 + w[6] * 0x100 + w[7] == 0xc000_0000_0000_0000
                + value % 0x4000_0000_0000_0000
        }),
{
    if value < 0x40 {
        lemma_be_bytes(value as nat);
        assert(wire_form(value) == be_bytes(0 * 0x40 + value as nat % 0x40, 1));
    } else if value < 0x4000 {
        lemma_be_bytes((0x4000 + value) as nat);
        assert(wire_form(value) == be_bytes(1 * 0x4000 + value as nat % 0x4000, 2));
    } else if value < 0x4000_0000 {
        lemma_be_bytes((0x8000_0000 + value) as nat);
        assert(wire_form(value) == be_bytes(2 * 0x4000_0000 + value as nat % 0x4000_0000, 4));
    } else {
        lemma_be_bytes((0xc000_0000_0000_0000 + value % 0x4000_0000_0000_0000) as nat);
        assert(wire_form(value) == be_bytes(
            3 * 0x4000_0000_0000_0000 + value as nat % 0x4000_0000_0000_0000,
            8,
        ));
    }
}

/// What the bytes at hand read as: the two top bits of the first byte say how
/// many bytes the integer takes, and the other bits are the value, big-endian.
pub proof fn varint_reading(bytes: Seq<u8>)
    ensures
        bytes.len() == 0 ==> value_at(bytes) is None,
        bytes.len() > 0 ==> {
            let b = bytes;
            let first = b[0] as nat;
            &&& first < 0x40 ==> value_at(b) == Some((first, 1nat))
            &&& 0x40 <= first < 0x80 ==> value_at(b) == (if b.len() < 2 {
                None
            } else {
                Some((((first - 0x40) * 0x100 + b[1]) as nat, 2nat))
            })
            &&& 0x80 <= first < 0xc0 ==> value_at(b) == (if b.len() < 4 {
                None
            } else {
                Some(
                    (
                        ((first - 0x80) * 0x100_0000 + b[1] * 0x1_0000 + b[2] * 0x100
                            + b[3]) as nat,
                        4nat,
                    ),
                )
            })
            &&& 0xc0 <= first ==> value_at(b) == (if b.len() < 8 {
                None
            } else {
                Some(
                    (
                        ((first - 0xc0) * 0x100_0000_0000_0000 + b[1] * 0x1_0000_0000_0000 + b[2]
                            * 0x100_0000_0000 + b[3] * 0x1_0000_0000 + b[4] * 0x100_0000 + b[5]
                            * 0x1_0000 + b[6] * 0x100 + b[7]) as nat,
                        8nat,
                    ),
                )
            })
        },
{
    if value_at(bytes) is Some {
        let width = announced_width(bytes[0]);
        let untagged = bytes.take(width as int).update(0, (bytes[0] % 0x40) as u8);
        lemma_be_value_spelled(untagged);
    }
}

/// [`be_value`] byte by byte, for the widths that an integer can have.
proof fn lemma_be_value_spelled(b: Seq<u8>)
    ensures
        b.len() == 1 ==> be_value(b) == b[0],
        b.len() == 2 ==> be_value(b) == b[0] * 0x100 + b[1],
        b.len() == 4 ==> be_value(b) == b[0] * 0x100_0000 + b[1] * 0x1_0000 + b[2] * 0x100 + b[3],
        b.len() == 8 ==> be_value(b) == b[0] * 0x100_0000_0000_0000 + b[1] * 0x1_0000_0000_0000
            + b[2] * 0x100_0000_0000 + b[3] * 0x1_0000_0000 + b[4] * 0x100_0000 + b[5] * 0x1_0000
            + b[6] * 0x100 + b[7],
{
    reveal_with_fuel(be_value, 9);
}

} // verus!
