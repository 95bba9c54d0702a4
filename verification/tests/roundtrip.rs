use varintrs::{
    Binary, ByteCursor, ReadBinary, ReadBytesVarExt, WriteBinary, WriteBytesVarExt,
    MAX_VARINT_LEN64,
};

#[allow(non_upper_case_globals)]
const ivar_test: [i64; 44] = [
    -1,
    -2,
    -10,
    -20,
    -63,
    -64,
    -65,
    -127,
    -128,
    -129,
    -255,
    -256,
    -257,
    -517,
    -768,
    -5976746468,
    -88748464645454,
    -5789627789625558,
    -18446744073709551,
    -184467440737095516,
    -1844674407370955161,
    0,
    1,
    2,
    10,
    20,
    63,
    64,
    65,
    127,
    128,
    129,
    255,
    256,
    257,
    517,
    768,
    5976746468,
    88748464645454,
    5789627789625558,
    18446744073709551,
    184467440737095516,
    1844674407370955161,
    1 << 63 - 1,
];

#[allow(non_upper_case_globals)]
const uvar_test: [u64; 24] = [
    0,
    1,
    2,
    10,
    20,
    63,
    64,
    65,
    127,
    128,
    129,
    255,
    256,
    257,
    517,
    768,
    5976746468,
    88748464645454,
    5789627789625558,
    18446744073709551,
    184467440737095516,
    1844674407370955161,
    18446744073709551615,
    1 << 64 - 1,
];

#[test]
fn test_uvarint64() {
    let mut buf = vec![0u8; MAX_VARINT_LEN64];
    for x in uvar_test {
        Binary::put_vu64(&mut buf, x);
        println!("{:?}", buf);
        let (v, _) = Binary::vu64(&buf);
        assert!(x == v);
    }
}

#[test]
fn test_varint64() {
    let mut buf = vec![0u8; MAX_VARINT_LEN64];
    for x in ivar_test {
        Binary::put_vi64(&mut buf, x);
        println!("{}:{:?}", x, buf);
        let (v, _) = Binary::vi64(&buf);
        assert!(x == v);
    }
}

#[test]
fn test_read_uvarint64() {
    let mut rdr = ByteCursor::new(vec![0u8; MAX_VARINT_LEN64]);

    for x in uvar_test {
        rdr.write_vu64::<Binary>(x).unwrap();
        rdr.set_position(0);
        let (v, _) = rdr.read_vu64::<Binary>();
        rdr.set_position(0);
        assert!(x == v);
    }
}

#[test]
fn test_read_varint64() {
    let mut rdr = ByteCursor::new(vec![0u8; MAX_VARINT_LEN64]);
    for x in ivar_test {
        rdr.write_vi64::<Binary>(x).unwrap();
        rdr.set_position(0);
        let (v, _) = rdr.read_vi64::<Binary>();
        rdr.set_position(0);
        assert!(x == v);
    }
}

#[test]
fn test_read_led128_u64() {
    let mut rdr = ByteCursor::new(vec![0u8; MAX_VARINT_LEN64]);
    for x in uvar_test {
        rdr.write_leb128_u64::<Binary>(x).unwrap();
        rdr.set_position(0);
        let v = rdr.read_led128_u64::<Binary>().unwrap();
        rdr.set_position(0);
        assert!(x == v);
    }
}

#[test]
fn test_read_led128_i64() {
    let mut rdr = ByteCursor::new(vec![0u8; MAX_VARINT_LEN64]);
    for x in ivar_test {
        rdr.write_leb128_i64::<Binary>(x).unwrap();
        rdr.set_position(0);
        let v = rdr.read_led128_i64::<Binary>().unwrap();
        rdr.set_position(0);
        assert!(x == v);
    }
}
