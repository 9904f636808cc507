use bufdb::io::BufferInput;
use bufdb::io::BufferOutput;

#[test]
fn test_io() {
    let mut output = BufferOutput::new();

    output.write_str(None);
    output.write_str(Some("Hello"));
    output.write_u8(123u8);
    output.write_u16(12345u16);
    output.write_u32(1234567u32);
    output.write_u64(1234567890u64);
    output.write_i8(-123i8);
    output.write_i16(-12345i16);
    output.write_i32(-1234567i32);
    output.write_i64(-1234567890i64);
    output.write_packed_i32(7654321i32);
    output.write_packed_i64(987654321i64);

    let buffer = output.into_entry();
    let mut input = BufferInput::new(buffer.slice());

    assert_eq!(None, input.read_string().unwrap());
    assert_eq!(Some(String::from("Hello")), input.read_string().unwrap());
    assert_eq!(123u8, input.read_u8().unwrap());
    assert_eq!(12345u16, input.read_u16().unwrap());
    assert_eq!(1234567u32, input.read_u32().unwrap());
    assert_eq!(1234567890u64, input.read_u64().unwrap());
    assert_eq!(-123i8, input.read_i8().unwrap());
    assert_eq!(-12345i16, input.read_i16().unwrap());
    assert_eq!(-1234567i32, input.read_i32().unwrap());
    assert_eq!(-1234567890i64, input.read_i64().unwrap());
    assert_eq!(7654321i32, input.read_packed_i32().unwrap());
    assert_eq!(987654321i64, input.read_packed_i64().unwrap());

    assert!(input.eof());
}

#[test]
fn test_io_out_of_bounds() {
    let mut input = BufferInput::new(&[1u8, 2u8]);
    assert!(input.read_u32().is_err());
    let e = input.read_u32().unwrap_err();
    assert!(matches!(e.inner, bufdb::error::ErrorKind::OutOfBounds));
}

#[test]
fn test_io_string_format_error() {
    // A string with no zero terminator fails with a format error.
    let mut input = BufferInput::new(&[b'H', b'i']);
    let e = input.read_string().unwrap_err();
    assert!(matches!(e.inner, bufdb::error::ErrorKind::Format));
}
