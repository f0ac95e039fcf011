use hamming::bits::message_bits;
use hamming::codeword::{build_codeword, codeword_length, data_capacity};
use hamming::encode::{encode_message, encode_message_length, EncodeError};

fn is_parity(i: usize) -> bool {
    i == 0 || i.is_power_of_two()
}

/// Checks every codeword invariant at run time: power-of-two length,
/// each block parity bit the XOR of the data positions it covers, and
/// the overall parity bit the XOR of everything else.
fn check_codeword(c: &[bool]) {
    let n = c.len();
    assert!(n.is_power_of_two());
    let mut p = 1usize;
    while p < n {
        let mut x = false;
        for i in 0..n {
            if !is_parity(i) && (i / p) % 2 == 1 {
                x ^= c[i];
            }
        }
        assert_eq!(c[p], x, "parity bit at {} is wrong", p);
        p *= 2;
    }
    let mut whole = false;
    for i in 1..n {
        whole ^= c[i];
    }
    assert_eq!(c[0], whole, "overall parity bit is wrong");
}

/// The data positions of `c`, in index order.
fn data_positions(c: &[bool]) -> Vec<bool> {
    let mut out = Vec::new();
    for i in 0..c.len() {
        if !is_parity(i) {
            out.push(c[i]);
        }
    }
    out
}

fn bits_of(msg: &[u8]) -> Vec<bool> {
    let mut out = Vec::new();
    for &b in msg {
        for k in (0..8).rev() {
            out.push((b >> k) & 1 == 1);
        }
    }
    out
}

#[test]
fn length_scenario_five() {
    let c = encode_message_length(5).unwrap();
    let expected: Vec<bool> = vec![
        true, false, true, false, false, false, false, false, false, false, false, false, false,
        true, false, true,
    ];
    assert_eq!(c, expected);
}

#[test]
fn length_parity_invariants() {
    for size in [0usize, 1, 2, 5, 31, 100, 255, 256, 1024, 2046, 2047] {
        let c = encode_message_length(size).unwrap();
        assert_eq!(c.len(), 16);
        check_codeword(&c);
        let mut expected_data = Vec::new();
        for k in (0..11).rev() {
            expected_data.push((size >> k) & 1 == 1);
        }
        assert_eq!(data_positions(&c), expected_data);
    }
}

#[test]
fn length_zero_succeeds() {
    let c = encode_message_length(0).unwrap();
    assert_eq!(c, vec![false; 16]);
}

#[test]
fn length_overflow_rejected() {
    assert_eq!(encode_message_length(2048), Err(EncodeError::CapacityOverflow));
    assert_eq!(encode_message_length(usize::MAX), Err(EncodeError::CapacityOverflow));
    assert!(encode_message_length(2047).is_ok());
}

#[test]
fn empty_message_payload() {
    let c = encode_message(b"");
    assert_eq!(c, vec![false]);
}

#[test]
fn single_byte_payload() {
    let c = encode_message(b"a");
    assert_eq!(c.len(), 16);
    check_codeword(&c);
    let mut expected_data = bits_of(b"a");
    expected_data.extend([false, false, false]);
    assert_eq!(data_positions(&c), expected_data);
}

#[test]
fn payload_length_is_minimal_power_of_two() {
    let messages: [&[u8]; 6] = [b"", b"a", b"hi", b"abc", b"hello world", b"0123456789abcdef"];
    for msg in messages {
        let c = encode_message(msg);
        assert!(c.len().is_power_of_two());
        assert!(c.len() >= 8 * msg.len());
        assert!(data_capacity(c.len()) >= 8 * msg.len());
        if c.len() > 1 {
            assert!(data_capacity(c.len() / 2) < 8 * msg.len());
        }
        check_codeword(&c);
        let mut expected_data = bits_of(msg);
        while expected_data.len() < data_capacity(c.len()) {
            expected_data.push(false);
        }
        assert_eq!(data_positions(&c), expected_data);
    }
}

#[test]
fn encoding_is_deterministic() {
    let h1 = encode_message_length(77).unwrap();
    let h2 = encode_message_length(77).unwrap();
    assert_eq!(h1, h2);
    let first = encode_message(b"hello world");
    let second = encode_message(b"hello world");
    assert_eq!(first, second);
}

#[test]
fn message_bits_msb_first() {
    let bits = message_bits(b"hi");
    // 'h' is 0x68, 'i' is 0x69
    let expected: Vec<bool> = vec![
        false, true, true, false, true, false, false, false, false, true, true, false, true,
        false, false, true,
    ];
    assert_eq!(bits, expected);
    assert_eq!(message_bits(b""), Vec::<bool>::new());
}

#[test]
fn two_byte_message_grows_past_its_raw_bit_count() {
    // 16 raw bits do not fit the 11 data positions of a 16-bit block,
    // so the payload block doubles instead of dropping bits.
    assert_eq!(codeword_length(16), 32);
    let c = encode_message(b"hi");
    assert_eq!(c.len(), 32);
    check_codeword(&c);
    let mut expected_data = bits_of(b"hi");
    while expected_data.len() < data_capacity(32) {
        expected_data.push(false);
    }
    assert_eq!(data_positions(&c), expected_data);
}

#[test]
fn sixteen_bit_block_holds_eleven_data_bits() {
    let bits = message_bits(b"hi");
    assert_eq!(bits.len(), 16);
    let c = build_codeword(&bits, 16);
    assert_eq!(c.len(), 16);
    check_codeword(&c);
    assert_eq!(data_positions(&c), bits[..11].to_vec());
}

#[test]
fn data_capacity_values() {
    for (len, cap) in [(1usize, 0usize), (2, 0), (4, 1), (8, 4), (16, 11), (32, 26), (64, 57)] {
        assert_eq!(data_capacity(len), cap);
    }
}

#[test]
fn codeword_length_values() {
    for (nbits, len) in [
        (0usize, 1usize),
        (1, 4),
        (2, 8),
        (4, 8),
        (5, 16),
        (8, 16),
        (11, 16),
        (12, 32),
        (26, 32),
        (27, 64),
    ] {
        assert_eq!(codeword_length(nbits), len, "for {} bits", nbits);
    }
}
