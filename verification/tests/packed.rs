use bufdb::packed_int::PackedI32;
use bufdb::packed_int::PackedI64;

fn check_i32(v: i32, len: Option<usize>) {
    let mut buf = vec![0u8; PackedI32::MAX_LENGETH];
    let val = PackedI32::from(v);
    let size = val.write(&mut buf, 0).unwrap();
    if let Some(len) = len {
        assert_eq!(len, size, "write len error");
    }
    let mut ret = PackedI32::default();
    let ret_len = ret.read(&buf).unwrap();
    assert_eq!(size, ret_len, "read len error");
    assert_eq!(val, ret, "read value error");
}

fn check_i64(v: i64, len: Option<usize>) {
    let mut buf = vec![0u8; PackedI64::MAX_LENGETH];
    let val = PackedI64::from(v);
    let size = val.write(&mut buf, 0).unwrap();
    if let Some(len) = len {
        assert_eq!(len, size, "write len error");
    }
    let mut ret = PackedI64::default();
    let ret_len = ret.read(&buf).unwrap();
    assert_eq!(size, ret_len, "read len error");
    assert_eq!(val, ret, "read value error");
}

#[test]
fn test_packed_i32() {
    check_i32(0, Some(1));
    check_i32(1, Some(1));
    check_i32(-1, Some(1));
    check_i32(119, Some(1));
    check_i32(-119, Some(1));
    check_i32(120, Some(2));
    check_i32(-120, Some(2));
    check_i32(i32::MAX, Some(5));
    check_i32(i32::MIN, Some(5));
    check_i32(18, None);
    check_i32(189, None);
    check_i32(1834325324, None);
    check_i32(770, None);
    check_i32(-18, None);
    check_i32(-189, None);
    check_i32(-1834325324, None);
    check_i32(-770, None);
    check_i32(0xf010, None);
}

#[test]
fn test_packed_i64() {
    check_i64(0, Some(1));
    check_i64(1, Some(1));
    check_i64(-1, Some(1));
    check_i64(119, Some(1));
    check_i64(-119, Some(1));
    check_i64(120, Some(2));
    check_i64(-120, Some(2));
    check_i64(i64::MAX, Some(9));
    check_i64(i64::MIN, Some(9));
    check_i64(18, None);
    check_i64(189, None);
    check_i64(1834325324, None);
    check_i64(770, None);
    check_i64(-18, None);
    check_i64(-189, None);
    check_i64(-1834325324, None);
    check_i64(-770, None);
    check_i64(0xf010, None);
}
