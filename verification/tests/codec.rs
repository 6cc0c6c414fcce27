use romtool::codec::{merge, split, ErrorKind};

#[test]
fn merge_basic() {
    let even = vec![0x01u8, 0x02];
    let odd = vec![0x03u8, 0x04];
    let out = merge(&even, &odd, false).unwrap();
    assert_eq!(out, vec![0x01, 0x02, 0x03, 0x04]);
}

#[test]
fn merge_byteswap() {
    let even = vec![0x01u8, 0x02];
    let odd = vec![0x03u8, 0x04];
    let out = merge(&even, &odd, true).unwrap();
    assert_eq!(out, vec![0x02, 0x01, 0x04, 0x03]);
}

#[test]
fn merge_two_words_per_source() {
    let even = vec![0x10u8, 0x11, 0x12, 0x13];
    let odd = vec![0x20u8, 0x21, 0x22, 0x23];
    let out = merge(&even, &odd, false).unwrap();
    assert_eq!(out, vec![0x10, 0x11, 0x20, 0x21, 0x12, 0x13, 0x22, 0x23]);
}

#[test]
fn merge_length_doubles() {
    let even = vec![7u8; 64];
    let odd = vec![9u8; 64];
    let out = merge(&even, &odd, false).unwrap();
    assert_eq!(out.len(), 2 * even.len());
}

#[test]
fn merge_size_mismatch() {
    let even = vec![0x01u8, 0x02];
    let odd = vec![0x03u8, 0x04, 0x05, 0x06];
    assert_eq!(merge(&even, &odd, false), Err(ErrorKind::SizeMismatch));
    assert_eq!(merge(&even, &odd, true), Err(ErrorKind::SizeMismatch));
}

#[test]
fn merge_odd_length() {
    let even = vec![0x01u8, 0x02, 0x03];
    let odd = vec![0x04u8, 0x05, 0x06];
    assert_eq!(merge(&even, &odd, false), Err(ErrorKind::OddLength));
    assert_eq!(merge(&even, &odd, true), Err(ErrorKind::OddLength));
}

#[test]
fn merge_mismatch_reported_before_odd_length() {
    let even = vec![0x01u8];
    let odd = vec![0x02u8, 0x03, 0x04];
    assert_eq!(merge(&even, &odd, false), Err(ErrorKind::SizeMismatch));
}

#[test]
fn merge_empty() {
    let even: Vec<u8> = Vec::new();
    let odd: Vec<u8> = Vec::new();
    assert_eq!(merge(&even, &odd, false), Ok(Vec::new()));
    assert_eq!(merge(&even, &odd, true), Ok(Vec::new()));
}

#[test]
fn split_basic() {
    let input = vec![0x01u8, 0x02, 0x03, 0x04];
    let (a, b) = split(&input, false);
    assert_eq!(a, vec![0x01, 0x02]);
    assert_eq!(b, vec![0x03, 0x04]);
}

#[test]
fn split_byteswap() {
    let input = vec![0x01u8, 0x02, 0x03, 0x04];
    let (a, b) = split(&input, true);
    assert_eq!(a, vec![0x02, 0x01]);
    assert_eq!(b, vec![0x04, 0x03]);
}

#[test]
fn split_two_groups() {
    let input = vec![0x10u8, 0x11, 0x20, 0x21, 0x12, 0x13, 0x22, 0x23];
    let (a, b) = split(&input, false);
    assert_eq!(a, vec![0x10, 0x11, 0x12, 0x13]);
    assert_eq!(b, vec![0x20, 0x21, 0x22, 0x23]);
}

#[test]
fn split_length_halves() {
    let input = vec![5u8; 128];
    let (a, b) = split(&input, false);
    assert_eq!(a.len(), input.len() / 2);
    assert_eq!(b.len(), input.len() / 2);
}

#[test]
fn split_empty() {
    let input: Vec<u8> = Vec::new();
    let (a, b) = split(&input, false);
    assert!(a.is_empty());
    assert!(b.is_empty());
}

#[test]
fn split_ignores_trailing_partial_group() {
    let input = vec![0x01u8, 0x02, 0x03, 0x04, 0x05, 0x06, 0x07];
    let (a, b) = split(&input, false);
    assert_eq!(a, vec![0x01, 0x02]);
    assert_eq!(b, vec![0x03, 0x04]);
}

#[test]
fn round_trip_plain() {
    let even = vec![0xAAu8, 0xBB, 0xCC, 0xDD, 0x01, 0x02];
    let odd = vec![0x11u8, 0x22, 0x33, 0x44, 0x03, 0x04];
    let merged = merge(&even, &odd, false).unwrap();
    let (a, b) = split(&merged, false);
    assert_eq!(a, even);
    assert_eq!(b, odd);
}

#[test]
fn round_trip_byteswap() {
    let even = vec![0xAAu8, 0xBB, 0xCC, 0xDD];
    let odd = vec![0x11u8, 0x22, 0x33, 0x44];
    let merged = merge(&even, &odd, true).unwrap();
    let (a, b) = split(&merged, true);
    assert_eq!(a, even);
    assert_eq!(b, odd);
}

#[test]
fn mismatched_flags_swap_within_words() {
    let even = vec![0x01u8, 0x02];
    let odd = vec![0x03u8, 0x04];
    let merged = merge(&even, &odd, false).unwrap();
    let (a, b) = split(&merged, true);
    assert_eq!(a, vec![0x02, 0x01]);
    assert_eq!(b, vec![0x04, 0x03]);
}
