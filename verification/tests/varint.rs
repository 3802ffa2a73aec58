use bytes::BytesMut;
use quic_relay::varint::{decode_varint, encode_varint};

fn encoded(value: u64) -> Vec<u8> {
    let mut buf = BytesMut::new();
    let written = encode_varint(&mut buf, value);
    assert_eq!(written, buf.len());
    buf.to_vec()
}

#[test]
fn test_varint_roundtrip() {
    for &value in &[0u64, 1, 63, 64, 16383, 16384, 1073741823, 1073741824] {
        let mut buf = BytesMut::new();
        encode_varint(&mut buf, value);
        let (decoded, consumed) = decode_varint(&buf).unwrap().unwrap();
        assert_eq!(decoded, value);
        assert_eq!(consumed, buf.len());
    }
}

#[test]
fn wire_form_of_each_width() {
    assert_eq!(encoded(0), [0x00]);
    assert_eq!(encoded(37), [0x25]);
    assert_eq!(encoded(63), [0x3f]);
    assert_eq!(encoded(64), [0x40, 0x40]);
    assert_eq!(encoded(15293), [0x7b, 0xbd]);
    assert_eq!(encoded(16383), [0x7f, 0xff]);
    assert_eq!(encoded(16384), [0x80, 0x00, 0x40, 0x00]);
    assert_eq!(encoded(494878333), [0x9d, 0x7f, 0x3e, 0x7d]);
    assert_eq!(encoded(1073741823), [0xbf, 0xff, 0xff, 0xff]);
    assert_eq!(encoded(1073741824), [0xc0, 0, 0, 0, 0x40, 0, 0, 0]);
    assert_eq!(
        encoded(151288809941952652),
        [0xc2, 0x19, 0x7c, 0x5e, 0xff, 0x14, 0xe8, 0x8c]
    );
}

#[test]
fn encoding_appends() {
    let mut buf = BytesMut::new();
    assert_eq!(encode_varint(&mut buf, 5), 1);
    assert_eq!(encode_varint(&mut buf, 300), 2);
    assert_eq!(&buf[..], [0x05, 0x41, 0x2c]);
}

#[test]
fn largest_value_survives() {
    let largest = (1u64 << 62) - 1;
    assert_eq!(encoded(largest), [0xff; 8]);
    assert_eq!(decode_varint(&[0xff; 8]).unwrap(), Some((largest, 8)));
}

#[test]
fn beyond_62_bits_the_low_bits_are_kept() {
    assert_eq!(encoded((1u64 << 62) + 7), [0xc0, 0, 0, 0, 0, 0, 0, 7]);
    assert_eq!(encoded(u64::MAX), [0xff; 8]);
    let bytes = encoded((3u64 << 62) + 0x1234_5678_9a);
    assert_eq!(decode_varint(&bytes).unwrap(), Some((0x1234_5678_9a, 8)));
}

#[test]
fn cut_integers_need_more_data() {
    assert_eq!(decode_varint(&[]).unwrap(), None);
    for value in [64u64, 16384, 1073741824] {
        let bytes = encoded(value);
        for at in 0..bytes.len() {
            assert_eq!(decode_varint(&bytes[..at]).unwrap(), None);
        }
    }
}

#[test]
fn what_follows_is_left_alone() {
    assert_eq!(decode_varint(&[0x25, 0xff, 0xff]).unwrap(), Some((37, 1)));
    assert_eq!(
        decode_varint(&[0x7b, 0xbd, 0x01]).unwrap(),
        Some((15293, 2))
    );
}

#[test]
fn longer_than_needed_is_read_too() {
    assert_eq!(decode_varint(&[0x40, 0x25]).unwrap(), Some((37, 2)));
    assert_eq!(decode_varint(&[0x80, 0, 0, 0x25]).unwrap(), Some((37, 4)));
}
