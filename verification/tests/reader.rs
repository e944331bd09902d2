use asn1::der::reader::Error;
use asn1::der::Reader;
use asn1::header::{
    Class, DecodeError, Identifier, Length, LengthDecodeError, TagEncoded, PC,
};

#[test]
pub fn decode_simple() {
    let mut reader = Reader::new(&b"\x04\x08\x01\x23\x45\x67\x89\xab\xcd\xef"[..]);
    let octets = reader.octetstring().expect("octetstring");

    assert_eq!(octets, &b"\x01\x23\x45\x67\x89\xab\xcd\xef"[..]);
}

#[test]
pub fn decode_key() {
    let key_bs = b"\x30\x59\x30\x13\x06\x07\x2A\x86\x48\xCE\x3D\x02\x01\x06\x08\x2A\x86\x48\xCE\x3D\x03\x01\x07\x03\x42\x00\x04\xA4\x39\xEC\xD3\xCE\xAD\xFD\xDB\x8E\x50\x34\xFD\x99\x72\x45\x8C\xDC\xEB\xA9\xD3\x4E\x09\xF3\x47\x31\x4A\x48\x6C\x3C\x4E\x3C\x00\x43\x3A\x1C\x0A\x6D\xBE\xE2\xEF\x6D\x00\x8A\x10\xC9\xE3\xBE\x0F\x07\xD3\x31\x8E\x77\x44\x20\x14\xE6\x63\xC2\xAF\x19\x14\x8B\xAC";
    let mut reader = Reader::new(key_bs);
    let mut out_sequence = reader.sequence().expect("outer sequence");
    let mut inner_sequence = out_sequence.sequence().expect("inner sequence");

    let oid1 = inner_sequence.oid().expect("oid1");
    assert_eq!(oid1.value1(), 1, "OID1 compoment 1");
    assert_eq!(oid1.value2(), 2, "OID1 component 2");
    let mut trailing: Vec<u64> = Vec::new();
    let mut components = oid1.components();
    while let Some(comp) = components.next() {
        trailing.push(comp.to_u64().unwrap());
    }
    assert_eq!(&trailing, &[840, 10045, 2, 1]);
    let oid2 = inner_sequence.oid().expect("oid2");
    assert_eq!(oid2.value1(), 1, "OID2 component 1");
    assert_eq!(oid2.value2(), 2, "OID2 component 2");
    let mut trailing: Vec<u64> = Vec::new();
    let mut components = oid2.components();
    while let Some(comp) = components.next() {
        trailing.push(comp.to_u64().unwrap());
    }
    assert_eq!(&trailing, &[840, 10045, 3, 1, 7]);

    let bits = out_sequence.bitstring().expect("bitstring");
    assert_eq!(bits.bits(), 520);
}

#[test]
fn decode_key_to_the_end() {
    let key_bs = b"\x30\x59\x30\x13\x06\x07\x2A\x86\x48\xCE\x3D\x02\x01\x06\x08\x2A\x86\x48\xCE\x3D\x03\x01\x07\x03\x42\x00\x04\xA4\x39\xEC\xD3\xCE\xAD\xFD\xDB\x8E\x50\x34\xFD\x99\x72\x45\x8C\xDC\xEB\xA9\xD3\x4E\x09\xF3\x47\x31\x4A\x48\x6C\x3C\x4E\x3C\x00\x43\x3A\x1C\x0A\x6D\xBE\xE2\xEF\x6D\x00\x8A\x10\xC9\xE3\xBE\x0F\x07\xD3\x31\x8E\x77\x44\x20\x14\xE6\x63\xC2\xAF\x19\x14\x8B\xAC";
    let mut reader = Reader::new(key_bs);
    assert_eq!(reader.current_position(), 0);
    assert_eq!(reader.remaining().len(), 91);
    let mut outer = reader.sequence().unwrap();
    assert_eq!(reader.current_position(), 91);
    assert_eq!(reader.remaining(), &[]);
    assert_eq!(reader.done(), Ok(()));
    let mut inner = outer.sequence().unwrap();
    assert_eq!(outer.current_position(), 21);
    assert_eq!(
        outer.done(),
        Err(Error::ReaderNotTerminated { index: 21, len: 89 })
    );
    inner.oid().unwrap();
    assert_eq!(
        inner.done(),
        Err(Error::ReaderNotTerminated { index: 9, len: 19 })
    );
    inner.oid().unwrap();
    assert_eq!(inner.done(), Ok(()));
    let bits = outer.bitstring().unwrap();
    assert_eq!(bits.bits_unused(), 0);
    assert_eq!(bits.data_bytes().len(), 65);
    assert_eq!(bits.data_bytes()[0], 0x04);
    assert_eq!(bits.as_ref().len(), 66);
    assert_eq!(outer.done(), Ok(()));
}

#[test]
fn read_bool() {
    assert_eq!(Reader::new(&[0x01, 0x01, 0xff]).bool(), Ok(true));
    assert_eq!(Reader::new(&[0x01, 0x01, 0x00]).bool(), Ok(false));
    assert_eq!(
        Reader::new(&[0x01, 0x01, 0x01]).bool(),
        Err(Error::BoolEncodingInvalid(1))
    );
    assert_eq!(
        Reader::new(&[0x01, 0x02, 0xff, 0xff]).bool(),
        Err(Error::BoolLengthInvalid(2))
    );
    assert_eq!(
        Reader::new(&[0x01, 0x00]).bool(),
        Err(Error::BoolLengthInvalid(0))
    );
}

#[test]
fn read_integer_canonical() {
    let mut reader = Reader::new(&[0x02, 0x02, 0x00, 0x01]);
    assert_eq!(reader.integer(), Err(Error::IntegerNotCanonical));
    let mut reader = Reader::new(&[0x02, 0x00]);
    assert_eq!(reader.integer(), Err(Error::IntegerNotCanonical));
    let mut reader = Reader::new(&[0x02, 0x01, 0x01]);
    let i = reader.integer().unwrap();
    assert_eq!(i.to_u64(), Some(1));
    assert_eq!(i.to_u8(), Some(1));
    assert_eq!(reader.done(), Ok(()));
}

#[test]
fn read_enumerated() {
    let mut reader = Reader::new(&[0x0a, 0x02, 0x01, 0x00, 0x0a, 0x01, 0x00]);
    let e = reader.enumerated().unwrap();
    assert_eq!(e.to_u8(), None);
    assert_eq!(e.to_u16(), Some(256));
    assert_eq!(e.to_u32(), Some(256));
    assert_eq!(e.to_u64(), Some(256));
    assert_eq!(e.to_u128(), Some(256));
    assert_eq!(e.as_ref(), &[0x01, 0x00]);
    assert_eq!(reader.enumerated(), Err(Error::IntegerNotCanonical));
    assert_eq!(reader.current_position(), 4);
}

#[test]
fn read_bitstring_validation() {
    assert_eq!(
        Reader::new(&[0x03, 0x00]).bitstring(),
        Err(Error::BitStringEncodingEmpty)
    );
    assert_eq!(
        Reader::new(&[0x03, 0x01, 0x08]).bitstring(),
        Err(Error::BitStringEncodingInvalidStart)
    );
    assert_eq!(
        Reader::new(&[0x03, 0x01, 0x03]).bitstring(),
        Err(Error::BitStringEncodingInvalidStart)
    );
    let bits = Reader::new(&[0x03, 0x02, 0x03, 0x08]).bitstring().unwrap();
    assert_eq!(bits.bits(), 5);
    assert_eq!(bits.bits_unused(), 3);
    assert_eq!(bits.data_bytes(), &[0x08]);
    assert_eq!(
        Reader::new(&[0x03, 0x02, 0x03, 0x09]).bitstring(),
        Err(Error::BitStringEncodingInvalidEnd)
    );
    // no data and no unused bits
    let bits = Reader::new(&[0x03, 0x01, 0x00]).bitstring().unwrap();
    assert_eq!(bits.bits(), 0);
    // seven unused bits
    let bits = Reader::new(&[0x03, 0x02, 0x07, 0x80]).bitstring().unwrap();
    assert_eq!(bits.bits(), 1);
    assert_eq!(
        Reader::new(&[0x03, 0x02, 0x07, 0xc0]).bitstring(),
        Err(Error::BitStringEncodingInvalidEnd)
    );
}

#[test]
fn read_utf8() {
    let mut reader = Reader::new(&[0x04, 0x06, b'h', 0xc3, 0xa9, b'l', b'l', b'o']);
    assert_eq!(reader.utf8_string(), Ok("h\u{e9}llo"));
    assert_eq!(reader.done(), Ok(()));
    let mut reader = Reader::new(&[0x04, 0x02, 0xc3, 0x28]);
    assert_eq!(reader.utf8_string(), Err(Error::Utf8Invalid));
    assert_eq!(reader.current_position(), 0);
    // the tag of the UTF8String itself is not the one that is looked for
    let mut reader = Reader::new(&[0x0c, 0x01, b'a']);
    assert_eq!(
        reader.utf8_string(),
        Err(Error::ExpectedTag {
            expected: 4,
            got: 12
        })
    );
    let mut reader = Reader::new(&[0x04, 0x00]);
    assert_eq!(reader.utf8_string(), Ok(""));
}

#[test]
fn read_null() {
    assert_eq!(Reader::new(&[0x05, 0x00]).null(), Ok(()));
    assert_eq!(
        Reader::new(&[0x05, 0x01, 0x00]).null(),
        Err(Error::NullEncodingInvalid)
    );
}

#[test]
fn read_oid_invalid() {
    assert_eq!(
        Reader::new(&[0x06, 0x00]).oid(),
        Err(Error::OIDInvalid)
    );
    assert_eq!(
        Reader::new(&[0x06, 0x01, 0x78]).oid(),
        Err(Error::OIDInvalid)
    );
    assert_eq!(
        Reader::new(&[0x06, 0x03, 0x2a, 0x80, 0x01]).oid(),
        Err(Error::OIDInvalid)
    );
    assert_eq!(
        Reader::new(&[0x06, 0x02, 0x2a, 0x81]).oid(),
        Err(Error::OIDInvalid)
    );
    let oid = Reader::new(&[0x06, 0x03, 0x2a, 0x81, 0x00]).oid().unwrap();
    assert_eq!(oid.components().next().unwrap().to_u32(), Some(128));
}

#[test]
fn read_mismatch() {
    assert_eq!(
        Reader::new(&[0x41, 0x01, 0xff]).bool(),
        Err(Error::ExpectedClass {
            expected: Class::Universal,
            got: Class::Application
        })
    );
    assert_eq!(
        Reader::new(&[0x21, 0x01, 0xff]).bool(),
        Err(Error::ExpectedCType {
            expected: PC::Primitive,
            got: PC::Constructed
        })
    );
    assert_eq!(
        Reader::new(&[0x10, 0x00]).sequence().err(),
        Some(Error::ExpectedCType {
            expected: PC::Constructed,
            got: PC::Primitive
        })
    );
    assert_eq!(
        Reader::new(&[0x02, 0x01, 0xff]).bool(),
        Err(Error::ExpectedTag {
            expected: 1,
            got: 2
        })
    );
    // the class is looked at before the constructed flag and the tag
    assert_eq!(
        Reader::new(&[0xe2, 0x01, 0xff]).bool(),
        Err(Error::ExpectedClass {
            expected: Class::Universal,
            got: Class::Private
        })
    );
}

#[test]
fn read_truncated() {
    assert_eq!(
        Reader::new(&[]).bool(),
        Err(Error::IdentifierInvalid(DecodeError::EmptyHeader))
    );
    assert_eq!(
        Reader::new(&[0x1f, 0x80]).bool(),
        Err(Error::IdentifierInvalid(
            DecodeError::TagEncodingNonCanonical
        ))
    );
    assert_eq!(
        Reader::new(&[0x01]).bool(),
        Err(Error::LengthInvalid(LengthDecodeError::EncodingIncomplete))
    );
    assert_eq!(
        Reader::new(&[0x04, 0x85, 1, 0, 0, 0, 0]).octetstring(),
        Err(Error::LengthInvalid(LengthDecodeError::EncodingOverflow))
    );
    assert_eq!(
        Reader::new(&[0x04, 0x03, 0x01, 0x02]).octetstring(),
        Err(Error::PayloadIncomplete {
            length: 3,
            remaining: 2
        })
    );
    assert_eq!(
        Reader::new(&[0x04, 0x80, 0x01, 0x02, 0x00, 0x00]).octetstring(),
        Err(Error::IndefiniteLengthDER)
    );
}

#[test]
fn read_failure_does_not_move() {
    let bytes = [0x05, 0x00, 0x02, 0x02, 0x00, 0x01, 0x01, 0x01, 0xff];
    let mut reader = Reader::new(&bytes);
    assert_eq!(reader.null(), Ok(()));
    assert_eq!(reader.current_position(), 2);
    assert_eq!(reader.integer(), Err(Error::IntegerNotCanonical));
    assert_eq!(reader.current_position(), 2);
    assert_eq!(
        reader.bool(),
        Err(Error::ExpectedTag {
            expected: 1,
            got: 2
        })
    );
    assert_eq!(reader.current_position(), 2);
    assert_eq!(reader.remaining(), &bytes[2..]);
    // the element that is not wanted is skipped
    let (identifier, length, payload) = reader.anything().unwrap();
    assert_eq!(
        identifier,
        Identifier {
            class: Class::Universal,
            pc: PC::Primitive,
            tag: TagEncoded::Short(2)
        }
    );
    assert_eq!(length, Length::Short(2));
    assert_eq!(payload, &[0x00, 0x01]);
    assert_eq!(reader.current_position(), 6);
    assert_eq!(reader.bool(), Ok(true));
    assert_eq!(reader.done(), Ok(()));
    assert_eq!(
        reader.anything().err(),
        Some(Error::IdentifierInvalid(DecodeError::EmptyHeader))
    );
}

#[test]
fn read_anything_long_forms() {
    let mut bytes = vec![0x9f, 0x84, 0xc9, 0x02, 0x81, 0x80];
    bytes.extend_from_slice(&[7u8; 128]);
    bytes.push(0x05);
    let mut reader = Reader::new(&bytes);
    let (identifier, length, payload) = reader.anything().unwrap();
    assert_eq!(
        identifier,
        Identifier {
            class: Class::Context,
            pc: PC::Primitive,
            tag: TagEncoded::Long(0x12482)
        }
    );
    assert_eq!(
        length,
        Length::Long {
            nb_bytes: 1,
            value: 128
        }
    );
    assert_eq!(payload, &[7u8; 128]);
    assert_eq!(reader.current_position(), 134);
    assert_eq!(reader.remaining(), &[0x05]);
}

#[test]
fn read_clone_is_independent() {
    let mut reader = Reader::new(&[0x05, 0x00, 0x05, 0x00]);
    reader.null().unwrap();
    let mut copy = reader.clone();
    reader.null().unwrap();
    assert_eq!(reader.current_position(), 4);
    assert_eq!(copy.current_position(), 2);
    copy.null().unwrap();
    assert_eq!(copy.done(), Ok(()));
}

#[test]
fn read_set_elements() {
    let bytes = [0x31, 0x09, 0x01, 0x01, 0xff, 0x01, 0x01, 0x00, 0x01, 0x01, 0xff, 0x05, 0x00];
    let mut reader = Reader::new(&bytes);
    let mut set = reader.set(|r: &mut Reader| r.bool()).unwrap();
    assert_eq!(reader.current_position(), 11);
    assert_eq!(set.next(), Some(Ok(true)));
    assert_eq!(set.next(), Some(Ok(false)));
    assert_eq!(set.next(), Some(Ok(true)));
    assert_eq!(set.next(), None);
    assert_eq!(set.next(), None);
    assert_eq!(reader.null(), Ok(()));
}

#[test]
fn read_set_error_does_not_advance() {
    let bytes = [0x31, 0x06, 0x01, 0x01, 0xff, 0x02, 0x01, 0x05];
    let mut reader = Reader::new(&bytes);
    let mut set = reader.set(|r: &mut Reader| r.bool()).unwrap();
    assert_eq!(set.next(), Some(Ok(true)));
    let failed = Some(Err(Error::ExpectedTag {
        expected: 1,
        got: 2,
    }));
    assert_eq!(set.next(), failed);
    assert_eq!(set.next(), failed);

    // a parser that reads two elements and fails on the second leaves both
    let bytes = [0x31, 0x06, 0x05, 0x00, 0x05, 0x00, 0x05, 0x00];
    let mut reader = Reader::new(&bytes);
    let mut pairs = reader
        .set(|r: &mut Reader| {
            r.null()?;
            r.null()
        })
        .unwrap();
    assert_eq!(pairs.next(), Some(Ok(())));
    assert_eq!(
        pairs.next(),
        Some(Err(Error::IdentifierInvalid(DecodeError::EmptyHeader)))
    );
    let mut singles = pairs.clone();
    assert_eq!(
        pairs.next(),
        Some(Err(Error::IdentifierInvalid(DecodeError::EmptyHeader)))
    );
    drop(singles.next());
}

#[test]
fn read_set_wrong_tag() {
    let mut reader = Reader::new(&[0x30, 0x00]);
    assert_eq!(
        reader.set(|r: &mut Reader| r.bool()).err(),
        Some(Error::ExpectedTag {
            expected: 17,
            got: 16
        })
    );
    assert_eq!(reader.current_position(), 0);
    let mut empty = Reader::new(&[0x31, 0x00]);
    let mut set = empty.set(|r: &mut Reader| r.bool()).unwrap();
    assert_eq!(set.next(), None);
}
