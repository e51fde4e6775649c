use dictionary::order::{compare_bytes, Comparison};
use dictionary::wire::{put_bytes, put_u16, put_u32, u16_at, u32_at};

#[test]
fn put_u16_appends_two_big_endian_bytes() {
    let mut w = vec![9u8];
    put_u16(&mut w, 0x1234);
    assert_eq!(w, vec![9, 0x12, 0x34]);
    put_u16(&mut w, 0xffff);
    assert_eq!(w, vec![9, 0x12, 0x34, 0xff, 0xff]);
}

#[test]
fn put_u32_appends_four_big_endian_bytes() {
    let mut w = Vec::new();
    put_u32(&mut w, 0x0102_0304);
    assert_eq!(w, vec![1, 2, 3, 4]);
    put_u32(&mut w, 0xffff_ffff);
    put_u32(&mut w, 0);
    assert_eq!(w, vec![1, 2, 3, 4, 255, 255, 255, 255, 0, 0, 0, 0]);
}

#[test]
fn put_bytes_appends_the_slice() {
    let mut w = vec![1u8, 2];
    put_bytes(&mut w, &[3, 4, 5]);
    put_bytes(&mut w, &[]);
    assert_eq!(w, vec![1, 2, 3, 4, 5]);
}

#[test]
fn u16_at_reads_big_endian() {
    let blob = [0u8, 0x12, 0x34, 0xff];
    assert_eq!(u16_at(&blob, 1), Some(0x1234));
    assert_eq!(u16_at(&blob, 0), Some(0x0012));
    assert_eq!(u16_at(&blob, 2), Some(0x34ff));
}

#[test]
fn u16_at_needs_two_bytes() {
    let blob = [1u8, 2, 3];
    assert_eq!(u16_at(&blob, 2), None);
    assert_eq!(u16_at(&blob, 3), None);
    assert_eq!(u16_at(&blob, usize::MAX), None);
    assert_eq!(u16_at(&[], 0), None);
}

#[test]
fn u32_at_reads_big_endian() {
    let blob = [7u8, 0x01, 0x02, 0x03, 0x04, 0x05];
    assert_eq!(u32_at(&blob, 1), Some(0x0102_0304));
    assert_eq!(u32_at(&blob, 2), Some(0x0203_0405));
    assert_eq!(u32_at(&[0xff, 0xff, 0xff, 0xff], 0), Some(u32::MAX));
}

#[test]
fn u32_at_needs_four_bytes() {
    let blob = [1u8, 2, 3, 4, 5];
    assert_eq!(u32_at(&blob, 2), None);
    assert_eq!(u32_at(&blob, 5), None);
    assert_eq!(u32_at(&blob, usize::MAX - 1), None);
    assert_eq!(u32_at(&[1, 2, 3], 0), None);
}

#[test]
fn what_is_put_is_read_back() {
    let mut w = Vec::new();
    put_u32(&mut w, 305_419_896);
    put_u16(&mut w, 43_981);
    assert_eq!(u32_at(&w, 0), Some(305_419_896));
    assert_eq!(u16_at(&w, 4), Some(43_981));
}

#[test]
fn bytes_compare_lexicographically() {
    assert_eq!(compare_bytes(b"", b""), Comparison::Equal);
    assert_eq!(compare_bytes(b"", b"a"), Comparison::Less);
    assert_eq!(compare_bytes(b"a", b""), Comparison::Greater);
    assert_eq!(compare_bytes(b"abc", b"abc"), Comparison::Equal);
    assert_eq!(compare_bytes(b"ab", b"abc"), Comparison::Less);
    assert_eq!(compare_bytes(b"abd", b"abc"), Comparison::Greater);
    assert_eq!(compare_bytes(b"b", b"abc"), Comparison::Greater);
    assert_eq!(compare_bytes(&[0x7f], &[0x80]), Comparison::Less);
}

#[test]
fn bytes_compare_as_strings_do() {
    let words = ["", "a", "ab", "b", "いぬ", "いね", "犬", "zebra", "Zebra", "é"];
    for a in words {
        for b in words {
            let expected = if a < b {
                Comparison::Less
            } else if a > b {
                Comparison::Greater
            } else {
                Comparison::Equal
            };
            assert_eq!(compare_bytes(a.as_bytes(), b.as_bytes()), expected);
        }
    }
}
