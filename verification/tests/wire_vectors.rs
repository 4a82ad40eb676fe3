use fips_tcp::wire::Segment;

fn decode_hex(value: &str) -> Vec<u8> {
    assert_eq!(value.len() % 2, 0, "hex string has odd length");
    (0..value.len())
        .step_by(2)
        .map(|offset| u8::from_str_radix(&value[offset..offset + 2], 16).unwrap())
        .collect()
}

#[test]
fn malformed_segments_are_rejected() {
    assert!(Segment::decode(&[0; 19]).is_err());
    let mut nonzero_checksum = decode_hex("01bbc0005566778811223345501080000001000068656c6c6f");
    assert!(Segment::decode(&nonzero_checksum).is_err());
    nonzero_checksum[16] = 0;
    nonzero_checksum[17] = 0;
    assert!(Segment::decode(&nonzero_checksum).is_ok());
}

#[test]
fn decoded_canonical_bytes_encode_back_exactly() {
    let bytes = decode_hex("01bbc0005566778811223345501080000000000068656c6c6f");
    let segment = Segment::decode(&bytes).unwrap();
    assert_eq!(segment.encode().unwrap(), bytes);
}
