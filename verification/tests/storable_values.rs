use stable_structures::BoundedStorable;
use stable_structures::Storable;

#[test]
fn unit_round_trip() {
    let b = ().to_bytes();
    assert!(b.is_empty());
    <() as Storable>::from_bytes(b);
}

#[test]
fn byte_vec_round_trip() {
    let v: Vec<u8> = vec![0, 1, 255, 42];
    let b = v.to_bytes();
    assert_eq!(b, vec![0, 1, 255, 42]);
    assert_eq!(<Vec<u8> as Storable>::from_bytes(b), v);
}

#[test]
fn string_round_trip() {
    let s = String::from("stable");
    let b = s.to_bytes();
    assert_eq!(b, "stable".as_bytes().to_vec());
    assert_eq!(<String as Storable>::from_bytes(b), s);
}

#[test]
fn string_round_trip_multibyte() {
    let s = String::from("p\u{00e9}re no\u{00eb}l");
    let b = s.to_bytes();
    assert_eq!(b, s.as_bytes().to_vec());
    assert_eq!(b[1], 0xC3);
    assert_eq!(b[2], 0xA9);
    assert_eq!(<String as Storable>::from_bytes(b), s);
}

#[test]
fn u8_round_trip() {
    assert_eq!(0xABu8.to_bytes(), vec![0xAB]);
    assert_eq!(<u8 as Storable>::from_bytes(vec![0xAB]), 0xAB);
}

#[test]
fn u16_round_trip() {
    assert_eq!(0x1234u16.to_bytes(), vec![0x12, 0x34]);
    assert_eq!(<u16 as Storable>::from_bytes(vec![0x12, 0x34]), 0x1234);
}

#[test]
fn u32_round_trip() {
    assert_eq!(0xDEAD_BEEFu32.to_bytes(), vec![0xDE, 0xAD, 0xBE, 0xEF]);
    assert_eq!(<u32 as Storable>::from_bytes(vec![0xDE, 0xAD, 0xBE, 0xEF]), 0xDEAD_BEEF);
}

#[test]
fn u64_round_trip() {
    assert_eq!(1u64.to_bytes(), vec![0, 0, 0, 0, 0, 0, 0, 1]);
    assert_eq!(<u64 as Storable>::from_bytes(vec![0, 0, 0, 0, 0, 0, 0, 1]), 1);
    let v = 0x0102_0304_0506_0708u64;
    assert_eq!(<u64 as Storable>::from_bytes(v.to_bytes()), v);
}

#[test]
fn u128_round_trip() {
    assert_eq!(u128::MAX.to_bytes(), vec![0xFF; 16]);
    assert_eq!(<u128 as Storable>::from_bytes(vec![0xFF; 16]), u128::MAX);
    assert_eq!(0u128.to_bytes(), vec![0; 16]);
    assert_eq!(<u128 as Storable>::from_bytes(vec![0; 16]), 0);
}

#[test]
fn big_endian_u64_ordering() {
    let a = 1u64.to_bytes();
    let b = 256u64.to_bytes();
    let c = 65_536u64.to_bytes();
    assert!(a < b);
    assert!(b < c);
}

#[test]
fn big_endian_u32_ordering() {
    let a = 3u32.to_bytes();
    let b = 0x0100_0000u32.to_bytes();
    assert!(a < b);
}

#[test]
fn max_sizes() {
    assert_eq!(<() as BoundedStorable>::max_size(), 0);
    assert_eq!(<u8 as BoundedStorable>::max_size(), 1);
    assert_eq!(<u16 as BoundedStorable>::max_size(), 2);
    assert_eq!(<u32 as BoundedStorable>::max_size(), 4);
    assert_eq!(<u64 as BoundedStorable>::max_size(), 8);
    assert_eq!(<u128 as BoundedStorable>::max_size(), 16);
}
