use mx_codec::codec::{
    read_var_buffer, read_var_string, read_var_u64, write_var_buffer, write_var_string, write_var_u64,
    DecodeError,
};

fn encode(v: u64) -> Vec<u8> {
    let mut buf = Vec::new();
    write_var_u64(&mut buf, v);
    buf
}

#[test]
fn test_var_u64_encoding() {
    assert_eq!(encode(0), vec![0]);
    assert_eq!(encode(127), vec![127]);
    assert_eq!(encode(128), vec![0x80, 0x01]);
    assert_eq!(encode(300), vec![0xac, 0x02]);
    assert_eq!(encode(u64::MAX), vec![0xff, 0xff, 0xff, 0xff, 0xff, 0xff, 0xff, 0xff, 0xff, 0x01]);
}

#[test]
fn test_var_u64_roundtrip() {
    for v in [0u64, 1, 127, 128, 255, 300, 16383, 16384, 1 << 35, u64::MAX - 1, u64::MAX] {
        let mut buf = encode(v);
        buf.extend_from_slice(&[9, 8]);
        let (tail, got) = read_var_u64(&buf).unwrap();
        assert_eq!(got, v);
        assert_eq!(tail, &[9, 8]);
    }
}

#[test]
fn test_var_u64_errors() {
    assert_eq!(read_var_u64(&[]), Err(DecodeError::Incomplete));
    assert_eq!(read_var_u64(&[0x80, 0x80]), Err(DecodeError::Incomplete));
    let too_big = [0xff, 0xff, 0xff, 0xff, 0xff, 0xff, 0xff, 0xff, 0xff, 0x02];
    assert_eq!(read_var_u64(&too_big), Err(DecodeError::Overflow));
    // a non-minimal encoding of 1 is still read
    assert_eq!(read_var_u64(&[0x81, 0x00]), Ok((&[][..], 1)));
}

#[test]
fn test_var_buffer() {
    let mut buf = Vec::new();
    write_var_buffer(&mut buf, &[1, 2, 3]);
    assert_eq!(buf, vec![3, 1, 2, 3]);
    buf.push(7);
    let (tail, val) = read_var_buffer(&buf).unwrap();
    assert_eq!(val, &[1, 2, 3]);
    assert_eq!(tail, &[7]);
    assert_eq!(read_var_buffer(&[5, 1, 2]), Err(DecodeError::Eof));
    assert_eq!(read_var_buffer(&[0x80]), Err(DecodeError::Incomplete));
}

#[test]
fn test_var_string() {
    let mut buf = Vec::new();
    write_var_string(&mut buf, "héllo");
    assert_eq!(buf[0], 6);
    let (tail, s) = read_var_string(&buf).unwrap();
    assert_eq!(s, "héllo");
    assert!(tail.is_empty());
    assert_eq!(read_var_string(&[2, 0xc3, 0x28]), Err(DecodeError::InvalidUtf8));
    let mut empty = Vec::new();
    write_var_string(&mut empty, "");
    assert_eq!(empty, vec![0]);
}
