use bufdb::entry::BufferEntry;
use bufdb::suffix::SIGN_VALUE;
use bufdb::suffix::append_suffix;
use bufdb::suffix::reset_suffix;
use bufdb::suffix::size_of_suffix;
use bufdb::suffix::unwrap_suffix;

fn check(value: u32, len: Option<usize>) {
    let buf = BufferEntry::empty();
    let buf = append_suffix(buf, value).unwrap();
    let len = if let Some(n) = len {
        assert_eq!(n, buf.size());
        n
    } else {
        buf.size()
    };
    {
        let (raw, n) = unwrap_suffix(&buf).unwrap();
        assert!(raw.is_empty());
        assert_eq!(value, n);
    }
    assert_eq!(len, size_of_suffix(&buf));

    let buf = BufferEntry::from_vec(vec![1u8, 2u8, 3u8]);
    assert_eq!(3, buf.size());
    let buf = append_suffix(buf, value).unwrap();
    assert_eq!(len + 3, buf.size());
    {
        let (raw, n) = unwrap_suffix(&buf).unwrap();
        assert_eq!(&[1u8, 2u8, 3u8], raw.slice());
        assert_eq!(value, n);
    }
    assert_eq!(len, size_of_suffix(&buf));

    let next = if value == u32::MAX { value - 1 } else { value + 1 };
    let buf = reset_suffix(buf, next).unwrap();
    let (_, n) = unwrap_suffix(&buf).unwrap();
    assert_eq!(next, n);
}

#[test]
fn test_suffix() {
    check(0, Some(1));
    check(1, Some(1));
    check(SIGN_VALUE as u32, Some(1));
    check(u8::MAX as u32, Some(2));
    check(u32::MAX, Some(5));

    check(247 + 0x00000000u32, Some(1));
    check(247 + 0x00000001u32, Some(2));
    check(247 + 0x000000FFu32, Some(2));
    check(247 + 0x00000100u32, Some(3));
    check(247 + 0x00010000u32, Some(4));
    check(247 + 0x01000000u32, Some(5));

    check(12345676, None);
    check(0xFA09E500, None);
}
