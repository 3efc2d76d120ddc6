use robyn::frame::{apply_mask, decode_frame, decode_masked_frame, encode_frame};

#[test]
fn encodes_short_frame() {
    let bytes = encode_frame(true, 1, &b"hi".to_vec());
    assert_eq!(bytes, vec![0x81, 2, b'h', b'i']);
}

#[test]
fn encodes_extended_length_frame() {
    let payload = vec![7u8; 300];
    let bytes = encode_frame(false, 2, &payload);
    assert_eq!(bytes[0], 2);
    assert_eq!(bytes[1], 126);
    assert_eq!(bytes[2], 1);
    assert_eq!(bytes[3], 44);
    assert_eq!(bytes.len(), 4 + 300);
    assert_eq!(&bytes[4..], &payload[..]);
}

#[test]
fn decode_inverts_encode() {
    let payload = b"hello frame".to_vec();
    let bytes = encode_frame(true, 1, &payload);
    let (fin, opcode, decoded) = decode_frame(&bytes).unwrap();
    assert!(fin);
    assert_eq!(opcode, 1);
    assert_eq!(decoded, payload);

    let long = vec![3u8; 600];
    let bytes = encode_frame(false, 9, &long);
    let (fin, opcode, decoded) = decode_frame(&bytes).unwrap();
    assert!(!fin);
    assert_eq!(opcode, 9);
    assert_eq!(decoded, long);
}

#[test]
fn decode_rejects_malformed_frames() {
    assert!(decode_frame(&[0x81]).is_none());
    // reserved bits set
    assert!(decode_frame(&[0x81 | 0x40, 0]).is_none());
    // mask bit set
    assert!(decode_frame(&[0x81, 0x80 | 2, 1, 2]).is_none());
    // declared length does not match the bytes present
    assert!(decode_frame(&[0x81, 3, b'h', b'i']).is_none());
    // non-canonical 8-byte length form
    assert!(decode_frame(&[0x81, 127, 0, 0, 0, 0, 0, 0, 0, 1, 9]).is_none());
    // non-canonical extended length
    assert!(decode_frame(&[0x81, 126, 0, 2, b'h', b'i']).is_none());
}

#[test]
fn masking_twice_is_identity() {
    let payload = b"masked payload".to_vec();
    let key = vec![0x12, 0x34, 0x56, 0x78];
    let masked = apply_mask(&payload, &key);
    assert_ne!(masked, payload);
    let unmasked = apply_mask(&masked, &key);
    assert_eq!(unmasked, payload);
}

#[test]
fn encodes_and_decodes_large_frame() {
    let payload = vec![5u8; 70000];
    let bytes = encode_frame(true, 2, &payload);
    assert_eq!(bytes[1], 127);
    assert_eq!(bytes.len(), 10 + 70000);
    let (fin, op, p) = decode_frame(&bytes).unwrap();
    assert!(fin);
    assert_eq!(op, 2);
    assert_eq!(p, payload);
}

#[test]
fn decodes_masked_frame_and_unmasks() {
    let payload = b"client data".to_vec();
    let key = vec![1u8, 2, 3, 4];
    let masked = apply_mask(&payload, &key);
    let mut bytes = vec![0x81u8, 0x80 | (payload.len() as u8)];
    bytes.extend_from_slice(&key);
    bytes.extend_from_slice(&masked);
    let (fin, op, k, p) = decode_masked_frame(&bytes).unwrap();
    assert!(fin);
    assert_eq!(op, 1);
    assert_eq!(k, key);
    assert_eq!(p, payload);
    assert!(decode_frame(&bytes).is_none());
    assert!(decode_masked_frame(&encode_frame(true, 1, &payload)).is_none());
}

#[test]
fn decodes_masked_extended_length_frame() {
    let payload = vec![9u8; 300];
    let key = vec![7u8, 7, 1, 250];
    let masked = apply_mask(&payload, &key);
    let mut bytes = vec![0x82u8, 0x80 | 126, 1, 44];
    bytes.extend_from_slice(&key);
    bytes.extend_from_slice(&masked);
    let (fin, op, k, p) = decode_masked_frame(&bytes).unwrap();
    assert!(fin);
    assert_eq!(op, 2);
    assert_eq!(k, key);
    assert_eq!(p, payload);
}
