use qr_encoder::bitstring::BitStream;
use qr_encoder::encode::{
    alphanumeric_value, choose_mode, count_indicator_bits, encode_segment, resolve_mode, Mode,
};
use qr_encoder::error::EncodeError;
use qr_encoder::version::Version;

fn text(stream: &BitStream) -> String {
    (0..stream.len()).map(|i| if stream.get(i) { '1' } else { '0' }).collect()
}

fn number(bits: &[u8]) -> usize {
    bits.iter().fold(0, |value, bit| 2 * value + (*bit - b'0') as usize)
}

const ALPHANUMERIC: &[u8; 45] = b"0123456789ABCDEFGHIJKLMNOPQRSTUVWXYZ $%*+-./:";

/// Reads a segment back, bit for bit, by the rules by which it is packed.
fn decode(bits: &str, version: Version) -> Vec<u8> {
    let bits = bits.as_bytes();
    let mode = match number(&bits[..4]) {
        1 => Mode::Numeric,
        2 => Mode::Alphanumeric,
        4 => Mode::Byte,
        other => panic!("mode indicator {}", other),
    };
    let width = count_indicator_bits(mode, version);
    let count = number(&bits[4..4 + width]);
    let mut at = 4 + width;
    let mut take = |n: usize| {
        at += n;
        number(&bits[at - n..at])
    };
    let mut data = Vec::new();
    match mode {
        Mode::Numeric => {
            let mut left = count;
            while left >= 3 {
                let group = take(10);
                data.extend([group / 100, group / 10 % 10, group % 10].map(|d| b'0' + d as u8));
                left -= 3;
            }
            if left == 2 {
                let group = take(7);
                data.extend([group / 10, group % 10].map(|d| b'0' + d as u8));
            } else if left == 1 {
                data.push(b'0' + take(4) as u8);
            }
        }
        Mode::Alphanumeric => {
            let mut left = count;
            while left >= 2 {
                let group = take(11);
                data.push(ALPHANUMERIC[group / 45]);
                data.push(ALPHANUMERIC[group % 45]);
                left -= 2;
            }
            if left == 1 {
                data.push(ALPHANUMERIC[take(6)]);
            }
        }
        Mode::Byte => {
            for _ in 0..count {
                data.push(take(8) as u8);
            }
        }
    }
    assert_eq!(at, bits.len());
    data
}

#[test]
fn choose_mode_takes_the_densest() {
    assert_eq!(choose_mode(b""), Mode::Numeric);
    assert_eq!(choose_mode(b"0"), Mode::Numeric);
    assert_eq!(choose_mode(b"0123456789"), Mode::Numeric);
    assert_eq!(choose_mode(b"12345A"), Mode::Alphanumeric);
    assert_eq!(choose_mode(b"HELLO WORLD"), Mode::Alphanumeric);
    assert_eq!(choose_mode(b"0123456789ABCDEFGHIJKLMNOPQRSTUVWXYZ $%*+-./:"), Mode::Alphanumeric);
    assert_eq!(choose_mode(b"hello world"), Mode::Byte);
    assert_eq!(choose_mode(b"HELLO, WORLD"), Mode::Byte);
    assert_eq!(choose_mode(b"123 "), Mode::Alphanumeric);
    assert_eq!(choose_mode(b"123\n"), Mode::Byte);
    assert_eq!(choose_mode(&[0x00]), Mode::Byte);
    assert_eq!(choose_mode(&[0xFF, b'1']), Mode::Byte);
    assert_eq!(choose_mode(&[b'1', 0x2F]), Mode::Alphanumeric);
    assert_eq!(choose_mode(&[b'1', 0x3A]), Mode::Alphanumeric);
    assert_eq!(choose_mode(&[b'1', 0x3B]), Mode::Byte);
}

#[test]
fn every_byte_falls_in_exactly_one_class() {
    for byte in 0..=255u8 {
        let mode = choose_mode(&[byte]);
        let digit = byte.is_ascii_digit();
        let in_set = ALPHANUMERIC.contains(&byte);
        assert!(!digit || in_set);
        let expected = if digit {
            Mode::Numeric
        } else if in_set {
            Mode::Alphanumeric
        } else {
            Mode::Byte
        };
        assert_eq!(mode, expected);
        assert_eq!(choose_mode(&[byte]), mode);
    }
}

#[test]
fn alphanumeric_values() {
    for (value, byte) in ALPHANUMERIC.iter().enumerate() {
        assert_eq!(alphanumeric_value(*byte), Some(value as u8));
    }
    assert_eq!(alphanumeric_value(b'a'), None);
    assert_eq!(alphanumeric_value(b','), None);
    assert_eq!(alphanumeric_value(b'#'), None);
    assert_eq!(alphanumeric_value(0), None);
    assert_eq!(alphanumeric_value(255), None);
    let members = (0..=255u8).filter(|b| alphanumeric_value(*b).is_some()).count();
    assert_eq!(members, 45);
}

#[test]
fn count_indicator_bits_by_mode_and_version() {
    let table = [
        (Mode::Numeric, [10, 12, 14]),
        (Mode::Alphanumeric, [9, 11, 13]),
        (Mode::Byte, [8, 16, 16]),
    ];
    for (mode, widths) in table {
        assert_eq!(count_indicator_bits(mode, Version::V1), widths[0]);
        assert_eq!(count_indicator_bits(mode, Version::V9), widths[0]);
        assert_eq!(count_indicator_bits(mode, Version::V10), widths[1]);
        assert_eq!(count_indicator_bits(mode, Version::V26), widths[1]);
        assert_eq!(count_indicator_bits(mode, Version::V27), widths[2]);
        assert_eq!(count_indicator_bits(mode, Version::V40), widths[2]);
    }
}

#[test]
fn segment_of_hello_world() {
    let stream = encode_segment(b"HELLO WORLD", Mode::Alphanumeric, Version::V1).unwrap();
    assert_eq!(
        text(&stream),
        "0010\
         000001011\
         01100001011\
         01111000110\
         10001011100\
         10110111000\
         10011010100\
         001101"
    );
    assert!(!stream.is_finalized());
}

#[test]
fn segment_of_digits() {
    let stream = encode_segment(b"01234567", Mode::Numeric, Version::V1).unwrap();
    assert_eq!(text(&stream), "0001\
         0000001000\
         0000001100\
         0101011001\
         1000011");
    let stream = encode_segment(b"0123456789012345", Mode::Numeric, Version::V1).unwrap();
    assert_eq!(
        text(&stream),
        "0001\
         0000010000\
         0000001100\
         0101011001\
         1010100110\
         1110000101\
         0011101010\
         0101"
    );
}

#[test]
fn segments_against_exact_bits() {
    assert_eq!(text(&encode_segment(b"", Mode::Numeric, Version::V1).unwrap()), "00010000000000");
    assert_eq!(text(&encode_segment(b"", Mode::Byte, Version::V40).unwrap()), "01000000000000000000");
    assert_eq!(text(&encode_segment(b"7", Mode::Numeric, Version::V10).unwrap()), "00010000000000010111");
    assert_eq!(text(&encode_segment(b"42", Mode::Numeric, Version::V27).unwrap()), "0001000000000000100101010");
    assert_eq!(text(&encode_segment(b"999", Mode::Numeric, Version::V1).unwrap()), "000100000000111111100111");
    assert_eq!(text(&encode_segment(b"1000", Mode::Numeric, Version::V9).unwrap()), "0001000000010000011001000000");
    assert_eq!(text(&encode_segment(b"A", Mode::Alphanumeric, Version::V1).unwrap()), "0010000000001001010");
    assert_eq!(text(&encode_segment(b"AB", Mode::Alphanumeric, Version::V10).unwrap()), "00100000000001000111001101");
    assert_eq!(text(&encode_segment(b"::", Mode::Alphanumeric, Version::V27).unwrap()), "0010000000000001011111101000");
    assert_eq!(text(&encode_segment(b": :", Mode::Alphanumeric, Version::V1).unwrap()), "001000000001111111100000101100");
    assert_eq!(text(&encode_segment(b"AC-42", Mode::Alphanumeric, Version::V1).unwrap()), "00100000001010011100111011100111001000010");
    assert_eq!(text(&encode_segment(b"a", Mode::Byte, Version::V1).unwrap()), "01000000000101100001");
    assert_eq!(text(&encode_segment(b"abc", Mode::Byte, Version::V10).unwrap()), "01000000000000000011011000010110001001100011");
    assert_eq!(text(&encode_segment(b"\x00\xff\x80", Mode::Byte, Version::V9).unwrap()), "010000000011000000001111111110000000");
    assert_eq!(text(&encode_segment(b"12", Mode::Byte, Version::V1).unwrap()), "0100000000100011000100110010");
    assert_eq!(text(&encode_segment(b"12", Mode::Alphanumeric, Version::V1).unwrap()), "001000000001000000101111");
}

#[test]
fn mode_asked_for_is_kept_where_it_admits_the_input() {
    assert_eq!(resolve_mode(b"123", Mode::Numeric), Mode::Numeric);
    assert_eq!(resolve_mode(b"123", Mode::Alphanumeric), Mode::Alphanumeric);
    assert_eq!(resolve_mode(b"123", Mode::Byte), Mode::Byte);
    assert_eq!(resolve_mode(b"AB1", Mode::Alphanumeric), Mode::Alphanumeric);
    assert_eq!(resolve_mode(b"AB1", Mode::Byte), Mode::Byte);
    assert_eq!(resolve_mode(b"ab1", Mode::Byte), Mode::Byte);
    assert_eq!(resolve_mode(b"", Mode::Numeric), Mode::Numeric);
    assert_eq!(resolve_mode(b"", Mode::Byte), Mode::Byte);
}

#[test]
fn mode_asked_for_gives_way_where_it_does_not_admit_the_input() {
    assert_eq!(resolve_mode(b"AB1", Mode::Numeric), Mode::Alphanumeric);
    assert_eq!(resolve_mode(b"ab1", Mode::Numeric), Mode::Byte);
    assert_eq!(resolve_mode(b"ab1", Mode::Alphanumeric), Mode::Byte);
    let asked = encode_segment(b"AB1", Mode::Numeric, Version::V1).unwrap();
    let chosen = encode_segment(b"AB1", Mode::Alphanumeric, Version::V1).unwrap();
    assert_eq!(text(&asked), text(&chosen));
    assert_eq!(decode(&text(&asked), Version::V1), b"AB1".to_vec());
    let asked = encode_segment(b"a,b", Mode::Alphanumeric, Version::V10).unwrap();
    let chosen = encode_segment(b"a,b", Mode::Byte, Version::V10).unwrap();
    assert_eq!(text(&asked), text(&chosen));
}

#[test]
fn segment_refuses_a_count_too_long() {
    let data = vec![b'1'; 1024];
    assert!(matches!(
        encode_segment(&data, Mode::Numeric, Version::V9),
        Err(EncodeError::CapacityExceeded)
    ));
    assert_eq!(encode_segment(&data[..1023], Mode::Numeric, Version::V9).unwrap().len(), 3424);
    assert_eq!(encode_segment(&data, Mode::Numeric, Version::V10).unwrap().len(), 3430);
    let data = vec![b'x'; 256];
    assert!(matches!(
        encode_segment(&data, Mode::Byte, Version::V1),
        Err(EncodeError::CapacityExceeded)
    ));
    assert_eq!(encode_segment(&data[..255], Mode::Byte, Version::V1).unwrap().len(), 2052);
    let data = vec![b'A'; 70000];
    assert!(matches!(
        encode_segment(&data, Mode::Alphanumeric, Version::V40),
        Err(EncodeError::CapacityExceeded)
    ));
    assert!(matches!(
        encode_segment(&data, Mode::Byte, Version::V40),
        Err(EncodeError::CapacityExceeded)
    ));
}

#[test]
fn segments_read_back_as_the_input() {
    let samples: [&[u8]; 12] = [
        b"",
        b"0",
        b"12",
        b"123",
        b"0001",
        b"31415926535897932384626433832795028841971",
        b"A",
        b"HELLO WORLD",
        b"$%*+-./: 0Z",
        b"hello, world!",
        &[0, 1, 2, 253, 254, 255],
        b"https://vahan.dev/",
    ];
    for data in samples {
        for version in [Version::V1, Version::V9, Version::V10, Version::V26, Version::V27, Version::V40] {
            for mode in [Mode::Numeric, Mode::Alphanumeric, Mode::Byte] {
                if mode.ordinal() < choose_mode(data).ordinal() {
                    continue;
                }
                let stream = encode_segment(data, mode, version).unwrap();
                assert_eq!(decode(&text(&stream), version), data.to_vec());
            }
        }
    }
}
