use mqtt::length::{checked_decode_length, decode_length, encode_length, MAX_REMAINING_LENGTH};

#[test]
fn length() {
    assert_eq!(encode_length(16), vec![16]);
    assert_eq!(decode_length(&vec![0, 16]), (16, 2));

    assert_eq!(encode_length(97), vec![97]);
    assert_eq!(decode_length(&vec![0, 97]), (97, 2));

    assert_eq!(encode_length(127), vec![127]);
    assert_eq!(decode_length(&vec![0, 127]), (127, 2));

    assert_eq!(encode_length(128), vec![0x80, 1]);
    assert_eq!(decode_length(&vec![0, 0x80, 1]), (128, 3));

    assert_eq!(encode_length(321), vec![0xC1, 2]);
    assert_eq!(decode_length(&vec![0, 0xC1, 2]), (321, 3));

    assert_eq!(encode_length(16383), vec![0xFF, 0x7F]);
    assert_eq!(decode_length(&vec![0, 0xFF, 0x7F]), (16383, 3));

    assert_eq!(encode_length(16384), vec![0x80, 0x80, 1]);
    assert_eq!(decode_length(&vec![0, 0x80, 0x80, 1]), (16384, 4));
}

fn framed(length: usize) -> Vec<u8> {
    let mut packet = vec![0x30u8];
    packet.extend(encode_length(length));
    packet
}

#[test]
fn round_trip_of_the_boundary_lengths() {
    for length in [16usize, 97, 127, 128, 321, 16383, 16384] {
        let packet = framed(length);
        assert_eq!(decode_length(&packet), (length, packet.len()));
        assert_eq!(checked_decode_length(&packet), Some((length, packet.len())));
    }
}

#[test]
fn round_trip_of_every_length_up_to_16384() {
    for length in 1usize..=16384 {
        let mut packet = framed(length);
        let consumed = packet.len();
        packet.extend_from_slice(&[0xFF, 0x00, 0x80]);
        assert_eq!(decode_length(&packet), (length, consumed));
    }
}

#[test]
fn zero_encodes_to_nothing() {
    assert_eq!(encode_length(0), Vec::<u8>::new());
    // The first byte alone stands for the length zero.
    assert_eq!(decode_length(&framed(0)), (0, 1));
    assert_eq!(decode_length(&[0x30]), (0, 1));
    assert_eq!(decode_length(&[0xFF]), (0, 1));
    // A header that was filled with zeros decodes to zero as well.
    let mut header = framed(0);
    header.resize(5, 0);
    assert_eq!(decode_length(&header), (0, 2));
    // On the wire the first byte alone is no header.
    assert_eq!(checked_decode_length(&framed(0)), None);
}

#[test]
fn round_trip_of_the_listed_lengths() {
    for length in [0usize, 16, 97, 127, 128, 321, 16383, 16384] {
        let packet = framed(length);
        assert_eq!(decode_length(&packet).0, length);
        assert_eq!(decode_length(&packet).1, packet.len());
    }
}

#[test]
fn number_of_length_bytes() {
    assert_eq!(encode_length(1).len(), 1);
    assert_eq!(encode_length(127).len(), 1);
    assert_eq!(encode_length(128).len(), 2);
    assert_eq!(encode_length(16383).len(), 2);
    assert_eq!(encode_length(16384).len(), 3);
    assert_eq!(encode_length(2_097_151).len(), 3);
    assert_eq!(encode_length(2_097_152).len(), 4);
    assert_eq!(encode_length(MAX_REMAINING_LENGTH).len(), 4);
}

#[test]
fn largest_length() {
    assert_eq!(MAX_REMAINING_LENGTH, 268_435_455);
    assert_eq!(encode_length(MAX_REMAINING_LENGTH), vec![0xFF, 0xFF, 0xFF, 0x7F]);
    assert_eq!(
        decode_length(&[0x30, 0xFF, 0xFF, 0xFF, 0x7F]),
        (MAX_REMAINING_LENGTH, 5)
    );
    assert_eq!(encode_length(2_097_152), vec![0x80, 0x80, 0x80, 0x01]);
    assert_eq!(decode_length(&[0, 0x80, 0x80, 0x80, 0x01, 9]), (2_097_152, 5));
}

#[test]
fn continuation_bit_is_on_every_byte_but_the_last() {
    for length in [1usize, 127, 128, 300, 16384, 5_000_000, MAX_REMAINING_LENGTH] {
        let bytes = encode_length(length);
        let (last, front) = bytes.split_last().unwrap();
        assert!(*last < 128);
        assert!(front.iter().all(|b| *b >= 128));
    }
}

#[test]
fn decoding_ignores_what_follows_the_length() {
    assert_eq!(decode_length(&[0x30, 5, 0xFF, 0xFF]), (5, 2));
    assert_eq!(decode_length(&[0xFF, 0x81, 0x01, 0x80]), (129, 3));
}

#[test]
fn decoding_accepts_padded_digits() {
    // 0x81 0x00 is one with a needless second digit.
    assert_eq!(decode_length(&[0, 0x81, 0x00]), (1, 3));
    assert_eq!(checked_decode_length(&[0, 0x80, 0x80, 0x80, 0x00]), Some((0, 5)));
}

#[test]
fn checked_decoding_refuses_what_has_no_length() {
    assert_eq!(checked_decode_length(&[]), None);
    assert_eq!(checked_decode_length(&[0x30]), None);
    assert_eq!(checked_decode_length(&[0x30, 0x80]), None);
    assert_eq!(checked_decode_length(&[0x30, 0x80, 0xFF, 0x80]), None);
    assert_eq!(checked_decode_length(&[0x30, 0x80, 0x80, 0x80, 0x80]), None);
    assert_eq!(checked_decode_length(&[0x30, 0x80, 0x80, 0x80, 0x80, 0x01]), None);
    assert_eq!(checked_decode_length(&[0x30, 0x00]), Some((0, 2)));
    assert_eq!(checked_decode_length(&[0x30, 0x80, 0x80, 0x80, 0x01]), Some((2_097_152, 5)));
}
