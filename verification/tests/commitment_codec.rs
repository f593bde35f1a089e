use zkip::commitment::{decode, encode, CodecError, CommitmentRecord};

fn rec(is_excluded: bool, timestamp: u32, codes: &[u16]) -> CommitmentRecord {
    CommitmentRecord { is_excluded, timestamp, excluded_countries: codes.to_vec() }
}

fn round_trip(r: &CommitmentRecord) {
    let bytes = encode(r);
    let back = decode(&bytes).unwrap();
    assert_eq!(back.is_excluded, r.is_excluded);
    assert_eq!(back.timestamp, r.timestamp);
    assert_eq!(back.excluded_countries, r.excluded_countries);
}

#[test]
fn commitment_round_trip_boundaries() {
    round_trip(&rec(true, 0, &[]));
    round_trip(&rec(false, 0, &[]));
    round_trip(&rec(true, u32::MAX, &[250]));
    round_trip(&rec(false, u32::MAX, &[0, 65535]));
    round_trip(&rec(true, 1700000000, &[250, 840, 250, 250]));
}

#[test]
fn encode_layout_is_fixed() {
    // scenario: clear verdict, one country code (250 = FR)
    let bytes = encode(&rec(true, 1700000000, &[250]));
    assert_eq!(bytes.len(), 160);
    // flag word: 31 zero bytes then 01
    assert!(bytes[0..31].iter().all(|&b| b == 0));
    assert_eq!(bytes[31], 1);
    // timestamp word, big-endian in the last four bytes
    assert!(bytes[32..60].iter().all(|&b| b == 0));
    assert_eq!(&bytes[60..64], &1700000000u32.to_be_bytes());
    // tail offset word: 0x60
    assert!(bytes[64..95].iter().all(|&b| b == 0));
    assert_eq!(bytes[95], 0x60);
    // count word: one entry
    assert!(bytes[96..127].iter().all(|&b| b == 0));
    assert_eq!(bytes[127], 1);
    // the code word: 250
    assert!(bytes[128..158].iter().all(|&b| b == 0));
    assert_eq!(bytes[158], 0);
    assert_eq!(bytes[159], 250);
}

#[test]
fn encode_excluded_flag_is_zero() {
    let bytes = encode(&rec(false, 7, &[]));
    assert_eq!(bytes.len(), 128);
    assert_eq!(bytes[31], 0);
}

#[test]
fn decode_rejects_malformed() {
    // too short
    assert!(matches!(decode(&vec![0u8; 96]), Err(CodecError::Malformed)));
    // flag byte out of range
    let mut b = encode(&rec(true, 7, &[]));
    b[31] = 2;
    assert!(matches!(decode(&b), Err(CodecError::Malformed)));
    // non-zero padding in the flag word
    let mut b = encode(&rec(true, 7, &[]));
    b[0] = 1;
    assert!(matches!(decode(&b), Err(CodecError::Malformed)));
    // wrong tail offset
    let mut b = encode(&rec(true, 7, &[250]));
    b[95] = 0x40;
    assert!(matches!(decode(&b), Err(CodecError::Malformed)));
    // count word disagreeing with the length
    let mut b = encode(&rec(true, 7, &[250]));
    b[127] = 2;
    assert!(matches!(decode(&b), Err(CodecError::Malformed)));
    // trailing garbage
    let mut b = encode(&rec(true, 7, &[250]));
    b.push(0);
    assert!(matches!(decode(&b), Err(CodecError::Malformed)));
    // non-zero padding in a code word
    let mut b = encode(&rec(true, 7, &[250]));
    b[130] = 9;
    assert!(matches!(decode(&b), Err(CodecError::Malformed)));
}

#[test]
fn decode_reads_fixed_bytes() {
    let mut b = vec![0u8; 160];
    b[31] = 1;
    b[60..64].copy_from_slice(&123456789u32.to_be_bytes());
    b[95] = 0x60;
    b[127] = 1;
    b[158] = 0x03;
    b[159] = 0x48; // 840 = US
    let rec = decode(&b).unwrap();
    assert!(rec.is_excluded);
    assert_eq!(rec.timestamp, 123456789);
    assert_eq!(rec.excluded_countries, vec![840]);
}
