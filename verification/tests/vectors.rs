use varintrs::{
    Binary, ByteCursor, Leb128Error, ReadBinary, ReadBytesVarExt, ReadU8, SliceReader,
    WriteBinary, WriteBytesVarExt, MAX_VARINT_LEN16, MAX_VARINT_LEN32, MAX_VARINT_LEN64,
};

#[test]
fn test_constants() {
    assert_eq!(MAX_VARINT_LEN16, 3);
    assert_eq!(MAX_VARINT_LEN32, 5);
    assert_eq!(MAX_VARINT_LEN64, 10);
    assert_eq!(varintrs::CONTINUATION_BIT, 0x80);
}

#[test]
fn test_low_bits() {
    assert_eq!(varintrs::low_bits_of_byte(0xAC), 0x2C);
    assert_eq!(varintrs::low_bits_of_byte(0x7F), 0x7F);
    assert_eq!(varintrs::low_bits_of_byte(0x80), 0x00);
    assert_eq!(varintrs::low_bits_of_u64(300), 44);
    assert_eq!(varintrs::low_bits_of_u64(u64::MAX), 127);
}

#[test]
fn test_encode_300() {
    let mut buf = vec![0u8; MAX_VARINT_LEN64];
    let n = Binary::put_vu64(&mut buf, 300);
    assert_eq!(n, 2);
    assert_eq!(&buf[..2], &[0xAC, 0x02]);
    let n = Binary::put_leb128_u64(&mut buf, 300);
    assert_eq!(n, 2);
    assert_eq!(&buf[..2], &[0xAC, 0x02]);
}

#[test]
fn test_decode_concrete() {
    let (v, n) = Binary::vu64(&[0xE4, 0xD3, 0xF7, 0xA1, 0x16]);
    assert_eq!(v, 5976746468);
    assert_eq!(n, 5);
}

#[test]
fn test_leb128_signed_vectors() {
    let mut buf = vec![0u8; MAX_VARINT_LEN64];
    let n = Binary::put_leb128_i64(&mut buf, -1);
    assert_eq!(n, 1);
    assert_eq!(buf[0], 0x7F);
    let n = Binary::put_leb128_i64(&mut buf, 63);
    assert_eq!(n, 1);
    assert_eq!(buf[0], 0x3F);
    let n = Binary::put_leb128_i64(&mut buf, -129);
    assert_eq!(n, 2);
    assert_eq!(&buf[..2], &[0xFF, 0x7E]);
}

#[test]
fn test_zero_takes_one_byte() {
    let mut buf = vec![0xAAu8; MAX_VARINT_LEN64];
    assert_eq!(Binary::put_vu64(&mut buf, 0), 1);
    assert_eq!(buf[0], 0x00);
    let mut buf = vec![0xAAu8; MAX_VARINT_LEN64];
    assert_eq!(Binary::put_leb128_u64(&mut buf, 0), 1);
    assert_eq!(buf[0], 0x00);
    let mut buf = vec![0xAAu8; MAX_VARINT_LEN64];
    assert_eq!(Binary::put_leb128_i64(&mut buf, 0), 1);
    assert_eq!(buf[0], 0x00);
}

#[test]
fn test_varint_truncated() {
    assert_eq!(Binary::vu64(&[]), (0, 0));
    assert_eq!(Binary::vu64(&[0x80]), (0, 0));
    assert_eq!(Binary::vu64(&[0xAC]), (0, 0));
    assert_eq!(Binary::vi64(&[0x80, 0x81]), (0, 0));
    // Ten continuation bytes and nothing after them: still truncation,
    // since the decoder only overflows on reading an eleventh byte.
    assert_eq!(Binary::vu64(&[0x80u8; 10]), (0, 0));
}

#[test]
fn test_varint_overflow() {
    let eleven = [0x80u8; 11];
    assert_eq!(Binary::vu64(&eleven), (0, -11));
    let mut ten = [0x80u8; 10];
    ten[9] = 0x02;
    assert_eq!(Binary::vu64(&ten), (0, -10));
    assert_eq!(Binary::vi64(&ten), (0, -10));
    ten[9] = 0x01;
    let (v, n) = Binary::vu64(&ten);
    assert_eq!(n, 10);
    assert_eq!(v, 1u64 << 63);
}

#[test]
fn test_leb128_truncated() {
    let mut rdr = ByteCursor::new(vec![0x80]);
    assert_eq!(
        rdr.read_led128_u64::<Binary>(),
        Err(Leb128Error::SourceExhausted)
    );
    let mut rdr = ByteCursor::new(vec![0x80, 0xFF]);
    assert_eq!(
        rdr.read_led128_i64::<Binary>(),
        Err(Leb128Error::SourceExhausted)
    );
    let mut rdr = ByteCursor::new(vec![]);
    assert_eq!(
        rdr.read_led128_u64::<Binary>(),
        Err(Leb128Error::SourceExhausted)
    );
}

#[test]
fn test_leb128_invalid() {
    let mut bytes = vec![0x80u8; 9];
    bytes.push(0x02);
    let mut rdr = ByteCursor::new(bytes.clone());
    assert_eq!(
        rdr.read_led128_u64::<Binary>(),
        Err(Leb128Error::InvalidEncoding)
    );
    let mut rdr = ByteCursor::new(bytes);
    assert_eq!(
        rdr.read_led128_i64::<Binary>(),
        Err(Leb128Error::InvalidEncoding)
    );
    // The tenth byte of a signed encoding must repeat the sign in every
    // payload bit: a bare one is valid unsigned but invalid signed.
    let mut bytes = vec![0x80u8; 9];
    bytes.push(0x01);
    let mut rdr = ByteCursor::new(bytes.clone());
    assert_eq!(rdr.read_led128_u64::<Binary>(), Ok(1u64 << 63));
    let mut rdr = ByteCursor::new(bytes);
    assert_eq!(
        rdr.read_led128_i64::<Binary>(),
        Err(Leb128Error::InvalidEncoding)
    );
}

#[test]
fn test_extremes() {
    let mut buf = vec![0u8; MAX_VARINT_LEN64];
    let n = Binary::put_vu64(&mut buf, u64::MAX);
    assert_eq!(n, 10);
    assert_eq!(buf, vec![0xFF, 0xFF, 0xFF, 0xFF, 0xFF, 0xFF, 0xFF, 0xFF, 0xFF, 0x01]);
    let (v, n) = Binary::vu64(&buf);
    assert_eq!((v, n), (u64::MAX, 10));

    let n = Binary::put_vi64(&mut buf, i64::MIN);
    assert_eq!(n, 10);
    let (v, n) = Binary::vi64(&buf);
    assert_eq!((v, n), (i64::MIN, 10));

    let n = Binary::put_leb128_i64(&mut buf, i64::MIN);
    assert_eq!(n, 10);
    assert_eq!(buf, vec![0x80, 0x80, 0x80, 0x80, 0x80, 0x80, 0x80, 0x80, 0x80, 0x7F]);
    let mut rdr = ByteCursor::new(buf.clone());
    assert_eq!(rdr.read_led128_i64::<Binary>(), Ok(i64::MIN));

    let n = Binary::put_leb128_i64(&mut buf, i64::MAX);
    assert_eq!(n, 10);
    assert_eq!(buf, vec![0xFF, 0xFF, 0xFF, 0xFF, 0xFF, 0xFF, 0xFF, 0xFF, 0xFF, 0x00]);
    let mut rdr = ByteCursor::new(buf.clone());
    assert_eq!(rdr.read_led128_i64::<Binary>(), Ok(i64::MAX));
}

#[test]
fn test_zigzag_no_collision() {
    for x in [0i64, 1, 5, 63, 64, 1000, -77, 4611686018427387904] {
        let mut a = vec![0u8; MAX_VARINT_LEN64];
        let mut b = vec![0u8; MAX_VARINT_LEN64];
        let na = Binary::put_vi64(&mut a, x);
        let nb = Binary::put_vi64(&mut b, -x - 1);
        assert!(a[..na] != b[..nb]);
    }
}

#[test]
fn test_vec_sink() {
    let mut out: Vec<u8> = Vec::new();
    assert_eq!(out.write_vu64::<Binary>(300), Ok(2));
    assert_eq!(out, vec![0xAC, 0x02]);
    assert_eq!(out.write_leb128_i64::<Binary>(-129), Ok(2));
    assert_eq!(out, vec![0xAC, 0x02, 0xFF, 0x7E]);
}

#[test]
fn test_cursor_behaviour() {
    let mut cur = ByteCursor::new(vec![1, 2, 3]);
    assert_eq!(cur.read_u8(), Ok(1));
    assert_eq!(cur.read_u8(), Ok(2));
    cur.set_position(0);
    assert_eq!(cur.read_u8(), Ok(1));
    cur.set_position(3);
    assert!(cur.read_u8().is_err());
    assert_eq!(cur.get_ref(), &vec![1, 2, 3]);
    assert_eq!(cur.into_inner(), vec![1, 2, 3]);

    // A write past the current end grows the buffer.
    let mut cur = ByteCursor::new(vec![9, 9]);
    cur.write_vu64::<Binary>(300).unwrap();
    cur.write_vu64::<Binary>(1).unwrap();
    assert_eq!(cur.get_ref(), &vec![0xAC, 0x02, 0x01]);
}

#[test]
fn test_slice_reader() {
    let data = [0xAC, 0x02, 0x7F];
    let mut rd = SliceReader::new(&data);
    assert_eq!(rd.read_u8(), Ok(0xAC));
    let (v, n) = rd.read_vu64::<Binary>();
    assert_eq!((v, n), (2, 1));
    assert_eq!(rd.read_led128_i64::<Binary>(), Ok(-1));
    assert!(rd.read_u8().is_err());
}

#[test]
fn test_length_monotone() {
    let mut last = 0;
    for x in [0u64, 1, 127, 128, 16383, 16384, 2097151, 2097152, u64::MAX] {
        let mut buf = vec![0u8; MAX_VARINT_LEN64];
        let n = Binary::put_vu64(&mut buf, x);
        assert!(n >= last);
        last = n;
    }
}
