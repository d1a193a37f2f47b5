use ferrite::{
    be_bytes_i64, be_bytes_u16, be_bytes_u32, be_bytes_u64, frame_len16, frame_len32, parse_len16,
    parse_len32, read_be_i64, read_be_u16, read_be_u32, read_be_u64,
};

#[test]
fn test_read_be_exact_values() {
    assert_eq!(read_be_u16(&[0x12, 0x34]), 0x1234);
    assert_eq!(read_be_u32(&[0x12, 0x34, 0x56, 0x78]), 0x12345678);
    assert_eq!(
        read_be_u64(&[0x01, 0x02, 0x03, 0x04, 0x05, 0x06, 0x07, 0x08]),
        0x0102030405060708
    );
    assert_eq!(read_be_i64(&[0xff; 8]), -1);
    assert_eq!(
        read_be_i64(&[0x00, 0x00, 0x00, 0x00, 0x00, 0x00, 0x00, 0x2a]),
        42
    );
}

#[test]
fn test_be_bytes_exact_values() {
    assert_eq!(be_bytes_u16(0x1234), vec![0x12, 0x34]);
    assert_eq!(be_bytes_u32(0x00ab_cdef), vec![0x00, 0xab, 0xcd, 0xef]);
    assert_eq!(
        be_bytes_u64(0x0102030405060708),
        vec![0x01, 0x02, 0x03, 0x04, 0x05, 0x06, 0x07, 0x08]
    );
    assert_eq!(be_bytes_i64(-1), vec![0xff; 8]);
}

#[test]
fn test_be_round_trips() {
    for v in [0u16, 1, 0x00ff, 0xff00, u16::MAX] {
        assert_eq!(read_be_u16(&be_bytes_u16(v)), v);
    }
    for v in [0u32, 1, 0xdead_beef, u32::MAX] {
        assert_eq!(read_be_u32(&be_bytes_u32(v)), v);
    }
    for v in [0u64, 1, 0x0123_4567_89ab_cdef, u64::MAX] {
        assert_eq!(read_be_u64(&be_bytes_u64(v)), v);
    }
    for v in [0i64, 1, -1, i64::MIN, i64::MAX] {
        assert_eq!(read_be_i64(&be_bytes_i64(v)), v);
    }
}

#[test]
fn test_frame_and_parse_len16() {
    let payload = vec![9u8, 8, 7];
    let framed = frame_len16(&payload).unwrap();
    assert_eq!(framed, vec![0, 3, 9, 8, 7]);
    let (body, used) = parse_len16(&framed).unwrap();
    assert_eq!(body, payload);
    assert_eq!(used, 5);
    // trailing bytes are left alone
    let mut longer = framed.clone();
    longer.push(0xaa);
    let (body2, used2) = parse_len16(&longer).unwrap();
    assert_eq!(body2, payload);
    assert_eq!(used2, 5);
}

#[test]
fn test_frame_len16_too_long() {
    let payload = vec![0u8; 0x10000];
    assert!(frame_len16(&payload).is_none());
    let framed = frame_len32(&payload).unwrap();
    assert_eq!(framed.len(), 4 + 0x10000);
    let (body, used) = parse_len32(&framed).unwrap();
    assert_eq!(body.len(), 0x10000);
    assert_eq!(used, 4 + 0x10000);
}

#[test]
fn test_parse_rejects_short_data() {
    assert!(parse_len16(&vec![]).is_none());
    assert!(parse_len16(&vec![0]).is_none());
    // announces 5 bytes, delivers 2
    assert!(parse_len16(&vec![0, 5, 1, 2]).is_none());
    assert!(parse_len32(&vec![0, 0, 0]).is_none());
    assert!(parse_len32(&vec![0, 0, 0, 2, 1]).is_none());
}
