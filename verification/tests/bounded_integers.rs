use dictionary::error::Error;
use dictionary::num::{U15, U31, U7};

#[test]
fn u7_accepts_its_maximum() {
    let v = U7::try_from(127usize).unwrap();
    assert_eq!(v.get(), 127);
    assert_eq!(U7::MAX, 127);
}

#[test]
fn u7_rejects_one_above_its_maximum() {
    assert_eq!(U7::try_from(128usize), Err(Error::RangeError { value: 128, max: 127 }));
}

#[test]
fn u15_accepts_its_maximum() {
    let v = U15::try_from(32_767usize).unwrap();
    assert_eq!(v.get(), 32_767);
}

#[test]
fn u15_rejects_one_above_its_maximum() {
    assert_eq!(U15::try_from(32_768usize), Err(Error::RangeError { value: 32_768, max: 32_767 }));
}

#[test]
fn u31_accepts_its_maximum() {
    let v = U31::try_from(2_147_483_647usize).unwrap();
    assert_eq!(v.get(), 2_147_483_647);
}

#[test]
fn u31_rejects_one_above_its_maximum() {
    assert_eq!(
        U31::try_from(2_147_483_648usize),
        Err(Error::RangeError { value: 2_147_483_648, max: 2_147_483_647 })
    );
}

#[test]
fn zero_is_in_every_range() {
    assert_eq!(U7::try_from(0usize).unwrap().get(), 0);
    assert_eq!(U15::try_from(0usize).unwrap().get(), 0);
    assert_eq!(U31::try_from(0usize).unwrap().get(), 0);
}

#[test]
fn a_value_far_out_of_range_is_rejected_with_its_value() {
    assert_eq!(
        U7::try_from(usize::MAX),
        Err(Error::RangeError { value: usize::MAX, max: 127 })
    );
}

#[test]
fn bytes_are_big_endian() {
    assert_eq!(U7::try_from(0x41usize).unwrap().to_be_bytes(), [0x41]);
    assert_eq!(U15::try_from(0x1234usize).unwrap().to_be_bytes(), [0x12, 0x34]);
    assert_eq!(U31::try_from(0x0102_0304usize).unwrap().to_be_bytes(), [1, 2, 3, 4]);
    assert_eq!(U15::try_from(1usize).unwrap().to_be_bytes(), [0, 1]);
    assert_eq!(U31::try_from(256usize).unwrap().to_be_bytes(), [0, 0, 1, 0]);
}

#[test]
fn the_maximum_round_trips_through_its_bytes() {
    let a = U7::try_from(127usize).unwrap();
    assert_eq!(a.to_be_bytes(), [0x7f]);
    assert_eq!(U7::from_be_bytes(a.to_be_bytes()), a);
    let b = U15::try_from(32_767usize).unwrap();
    assert_eq!(b.to_be_bytes(), [0x7f, 0xff]);
    assert_eq!(U15::from_be_bytes(b.to_be_bytes()), b);
    let c = U31::try_from(2_147_483_647usize).unwrap();
    assert_eq!(c.to_be_bytes(), [0x7f, 0xff, 0xff, 0xff]);
    assert_eq!(U31::from_be_bytes(c.to_be_bytes()), c);
}

#[test]
fn every_seven_bit_value_round_trips() {
    for v in 0..=127usize {
        let x = U7::try_from(v).unwrap();
        assert_eq!(U7::from_be_bytes(x.to_be_bytes()), x);
    }
}

#[test]
fn sampled_values_round_trip() {
    for v in [0usize, 1, 255, 256, 4660, 32_766, 32_767] {
        let x = U15::try_from(v).unwrap();
        assert_eq!(U15::from_be_bytes(x.to_be_bytes()).get() as usize, v);
    }
    for v in [0usize, 1, 65_535, 65_536, 16_909_060, 2_147_483_646, 2_147_483_647] {
        let x = U31::try_from(v).unwrap();
        assert_eq!(U31::from_be_bytes(x.to_be_bytes()).get() as usize, v);
    }
}

#[test]
fn decoding_ignores_the_top_bit() {
    assert_eq!(U7::from_be_bytes([0xff]).get(), 0x7f);
    assert_eq!(U7::from_be_bytes([0x80]).get(), 0);
    assert_eq!(U15::from_be_bytes([0xff, 0xff]).get(), 0x7fff);
    assert_eq!(U15::from_be_bytes([0x80, 0x01]).get(), 1);
    assert_eq!(U31::from_be_bytes([0xff, 0xff, 0xff, 0xff]).get(), 0x7fff_ffff);
    assert_eq!(U31::from_be_bytes([0x80, 0, 0, 2]).get(), 2);
}

#[test]
fn bounded_integers_compare_by_value() {
    let a = U31::try_from(3usize).unwrap();
    let b = U31::try_from(5usize).unwrap();
    assert!(a < b);
    assert!(a != b);
    assert_eq!(a, U31::try_from(3usize).unwrap());
}
