use asn1::intenc::{Integer8Bit, IntegerContBit7};
use asn1::objects::{Integer, OIDComponent, OID};

#[test]
fn cont7_parse() {
    let (v, n) = IntegerContBit7::parse_from_slice(&[0x86, 0x48, 0xce, 0x3d]).unwrap();
    assert_eq!(n, 2);
    assert_eq!(v.as_ref(), &[0x86, 0x48]);
    assert_eq!(v.to_u64(), Some(840));

    let (v, n) = IntegerContBit7::parse_from_slice(&[0x00]).unwrap();
    assert_eq!(n, 1);
    assert_eq!(v.to_u8(), Some(0));
}

#[test]
fn cont7_rejects() {
    assert!(IntegerContBit7::parse_from_slice(&[]).is_err());
    assert!(IntegerContBit7::parse_from_slice(&[0x80]).is_err());
    assert!(IntegerContBit7::parse_from_slice(&[0x80, 0x01]).is_err());
    assert!(IntegerContBit7::parse_from_slice(&[0x81]).is_err());
    assert!(IntegerContBit7::parse_from_slice(&[0x81, 0xff, 0xc0]).is_err());
}

#[test]
fn cont7_widths() {
    // 0x81 0x00 is 128
    let (v, _) = IntegerContBit7::parse_from_slice(&[0x81, 0x00]).unwrap();
    assert_eq!(v.to_u8(), Some(128));
    // 0x82 0x00 is 256, too much for 8 bits
    let (v, _) = IntegerContBit7::parse_from_slice(&[0x82, 0x00]).unwrap();
    assert_eq!(v.to_u8(), None);
    assert_eq!(v.to_u16(), Some(256));
    // 0x83 0x00 is 384: the limbs that fall off the top are not lost
    let (v, _) = IntegerContBit7::parse_from_slice(&[0x83, 0x00]).unwrap();
    assert_eq!(v.to_u8(), None);
    assert_eq!(v.to_u16(), Some(384));
    // 5 limbs: 2^32 - 1 and 2^32
    let (v, n) = IntegerContBit7::parse_from_slice(&[0x8f, 0xff, 0xff, 0xff, 0x7f]).unwrap();
    assert_eq!(n, 5);
    assert_eq!(v.to_u16(), None);
    assert_eq!(v.to_u32(), Some(u32::MAX));
    assert_eq!(v.to_u64(), Some(u32::MAX as u64));
    let (v, _) = IntegerContBit7::parse_from_slice(&[0x90, 0x80, 0x80, 0x80, 0x00]).unwrap();
    assert_eq!(v.to_u32(), None);
    assert_eq!(v.to_u64(), Some(1 << 32));
    assert_eq!(v.to_u128(), Some(1 << 32));
    // 19 limbs hold 133 bits
    let mut big = [0xffu8; 19];
    big[18] = 0x7f;
    let (v, n) = IntegerContBit7::parse_from_slice(&big).unwrap();
    assert_eq!(n, 19);
    assert_eq!(v.to_u64(), None);
    assert_eq!(v.to_u128(), None);
    big[0] = 0x83;
    let (v, _) = IntegerContBit7::parse_from_slice(&big).unwrap();
    assert_eq!(v.to_u128(), Some(u128::MAX));
}

#[test]
fn int8_from_slice() {
    assert!(Integer8Bit::from_slice(&[]).is_err());
    assert!(Integer8Bit::from_slice(&[0x00]).is_err());
    assert!(Integer8Bit::from_slice(&[0x00, 0x01]).is_err());
    let v = Integer8Bit::from_slice(&[0x01]).unwrap();
    assert_eq!(v.to_u8(), Some(1));
    assert_eq!(v.as_ref(), &[0x01]);
}

#[test]
fn int8_widths() {
    let v = Integer8Bit::from_slice(&[0xff]).unwrap();
    assert_eq!(v.to_u8(), Some(255));
    let v = Integer8Bit::from_slice(&[0x01, 0x00]).unwrap();
    assert_eq!(v.to_u8(), None);
    assert_eq!(v.to_u16(), Some(256));
    let v = Integer8Bit::from_slice(&[0x01, 0x02, 0x03]).unwrap();
    assert_eq!(v.to_u16(), None);
    assert_eq!(v.to_u32(), Some(0x010203));
    let v = Integer8Bit::from_slice(&[0x01, 0x00, 0x00, 0x00, 0x00]).unwrap();
    assert_eq!(v.to_u32(), None);
    assert_eq!(v.to_u64(), Some(1 << 32));
    let v = Integer8Bit::from_slice(&[0xff; 8]).unwrap();
    assert_eq!(v.to_u64(), Some(u64::MAX));
    let v = Integer8Bit::from_slice(&[0xff; 16]).unwrap();
    assert_eq!(v.to_u64(), None);
    assert_eq!(v.to_u128(), Some(u128::MAX));
    let v = Integer8Bit::from_slice(&[0x01; 17]).unwrap();
    assert_eq!(v.to_u128(), None);
}

#[test]
fn typed_wrappers() {
    let inner = Integer8Bit::from_slice(&[0x12, 0x34]).unwrap();
    let i = Integer::from_inner_slice(inner);
    assert_eq!(i.as_ref(), &[0x12, 0x34]);
    assert_eq!(i.to_u8(), None);
    assert_eq!(i.to_u16(), Some(0x1234));
    assert_eq!(i.to_u32(), Some(0x1234));
    assert_eq!(i.to_u64(), Some(0x1234));
    assert_eq!(i.to_u128(), Some(0x1234));

    let (limbs, _) = IntegerContBit7::parse_from_slice(&[0xce, 0x3d]).unwrap();
    let c = OIDComponent::from_inner_slice(limbs);
    assert_eq!(c.as_ref(), &[0xce, 0x3d]);
    assert_eq!(c.to_u8(), None);
    assert_eq!(c.to_u16(), Some(10045));
    assert_eq!(c.to_u32(), Some(10045));
    assert_eq!(c.to_u64(), Some(10045));
    assert_eq!(c.to_u128(), Some(10045));
}

#[test]
fn oid_parse() {
    let oid = OID::parse_from_slice(&[0x2a, 0x86, 0x48, 0xce, 0x3d, 0x02, 0x01]).unwrap();
    assert_eq!(oid.value1(), 1);
    assert_eq!(oid.value2(), 2);
    assert_eq!(oid.as_ref(), &[0x2a, 0x86, 0x48, 0xce, 0x3d, 0x02, 0x01]);
    let mut components = oid.components();
    let mut values = Vec::new();
    while let Some(c) = components.next() {
        values.push(c.to_u64().unwrap());
    }
    assert_eq!(values, vec![840, 10045, 2, 1]);
    // the sequence has ended and stays ended
    assert!(components.next().is_none());
    assert!(components.next().is_none());

    // the first two arcs alone
    let oid = OID::parse_from_slice(&[0x77]).unwrap();
    assert_eq!(oid.value1(), 2);
    assert_eq!(oid.value2(), 39);
    assert!(oid.components().next().is_none());
}

#[test]
fn oid_components_clone() {
    let oid = OID::parse_from_slice(&[0x2a, 0x03, 0x04]).unwrap();
    let mut first = oid.components();
    assert_eq!(first.next().unwrap().to_u8(), Some(3));
    let mut second = first.clone();
    assert_eq!(first.next().unwrap().to_u8(), Some(4));
    assert_eq!(second.next().unwrap().to_u8(), Some(4));
    assert!(first.next().is_none());
    assert!(second.next().is_none());
}

#[test]
fn oid_rejects() {
    assert!(OID::parse_from_slice(&[]).is_err());
    // first arc 3
    assert!(OID::parse_from_slice(&[120]).is_err());
    assert!(OID::parse_from_slice(&[119]).is_ok());
    // a component of padding
    assert!(OID::parse_from_slice(&[0x2a, 0x80, 0x01]).is_err());
    // a component that does not end
    assert!(OID::parse_from_slice(&[0x2a, 0x01, 0x86]).is_err());
}

fn first_byte_of(bytes: impl AsRef<[u8]>) -> u8 {
    bytes.as_ref()[0]
}

#[test]
fn typed_views_as_bytes() {
    let inner = Integer8Bit::from_slice(&[0x12, 0x34]).unwrap();
    assert_eq!(first_byte_of(inner), 0x12);
    assert_eq!(first_byte_of(Integer::from_inner_slice(inner)), 0x12);
    let (limbs, _) = IntegerContBit7::parse_from_slice(&[0xce, 0x3d]).unwrap();
    assert_eq!(first_byte_of(limbs), 0xce);
    assert_eq!(first_byte_of(OIDComponent::from_inner_slice(limbs)), 0xce);
    let oid = OID::parse_from_slice(&[0x2a, 0x03]).unwrap();
    assert_eq!(first_byte_of(oid), 0x2a);
}
