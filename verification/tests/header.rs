use asn1::header::{
    Class, DecodeError, Identifier, Length, LengthDecodeError, TagEncoded, PC,
};

fn decode_encode(header: &Identifier) -> Result<Identifier, String> {
    let mut buf = [0u8; 32];
    let sz = header.encode(&mut buf);
    match Identifier::decode(&buf[0..sz]) {
        Err(e) => Err(format!("decoding error {:?} for {:?}", e, header)),
        Ok((hdr, dsz)) => {
            if dsz == sz {
                Ok(hdr)
            } else {
                Err(format!(
                    "decoded size {} is different from encoded {}",
                    dsz, sz
                ))
            }
        }
    }
}

fn decode_encode_len(len: &Length) -> Result<Length, String> {
    let mut buf = [0u8; 32];
    let sz = len.size_bytes();
    len.encode(&mut buf);

    match Length::decode(&buf[0..sz]) {
        Err(e) => Err(format!("decoding error {:?} for {:?}", e, len)),
        Ok((hdr, dsz)) => {
            if dsz == sz {
                Ok(hdr)
            } else {
                Err(format!(
                    "decoded size {} is different from encoded {}",
                    dsz, sz
                ))
            }
        }
    }
}

#[test]
fn decode_encode_headers() {
    let mut hdr = Identifier {
        class: Class::Universal,
        pc: PC::Primitive,
        tag: TagEncoded::Short(1),
    };

    for tag_short in 0..0x1f {
        hdr.tag = TagEncoded::Short(tag_short);
        let new_hdr = decode_encode(&hdr).unwrap();
        assert_eq!(new_hdr, hdr)
    }

    for tag_long in 1..0x3f {
        hdr.tag = TagEncoded::Long(tag_long);
        let new_hdr = decode_encode(&hdr).unwrap();
        assert_eq!(new_hdr, hdr)
    }
}

#[test]
fn decode_encode_oddtag() {
    let hdr = Identifier {
        class: Class::Context,
        pc: PC::Primitive,
        tag: TagEncoded::Long(0x12482),
    };
    let new_hdr = decode_encode(&hdr).unwrap();
    assert_eq!(new_hdr, hdr)
}

#[test]
fn decode_encode_length() {
    for v in &[
        1usize, 10, 32, 43, 46, 56, 80, 88, 92, 102, 140, 200, 340, 359, 469, 699, 999, 1001,
        1394, 2149214, 241421421,
    ] {
        let length = Length::new_smallest(*v);
        let new_length = decode_encode_len(&length).unwrap();
        assert_eq!(new_length, length)
    }
}

#[test]
fn identifier_round_trip_all_classes() {
    let classes = [
        Class::Universal,
        Class::Application,
        Class::Context,
        Class::Private,
    ];
    let pcs = [PC::Primitive, PC::Constructed];
    let tags = [
        TagEncoded::Short(0),
        TagEncoded::Short(30),
        TagEncoded::Long(0),
        TagEncoded::Long(31),
        TagEncoded::Long(127),
        TagEncoded::Long(128),
        TagEncoded::Long(16383),
        TagEncoded::Long(16384),
        TagEncoded::Long(0x12482),
        TagEncoded::Long(u32::MAX),
    ];
    for class in classes {
        for pc in pcs {
            for tag in tags {
                let hdr = Identifier { class, pc, tag };
                assert_eq!(decode_encode(&hdr).unwrap(), hdr);
            }
        }
    }
}

#[test]
fn identifier_exact_bytes() {
    let hdr = Identifier {
        class: Class::Context,
        pc: PC::Primitive,
        tag: TagEncoded::Long(0x12482),
    };
    let mut buf = [0xaau8; 8];
    let n = hdr.encode(&mut buf);
    assert_eq!(n, 4);
    assert_eq!(hdr.size_bytes(), 4);
    assert_eq!(buf, [0x9f, 0x84, 0xc9, 0x02, 0xaa, 0xaa, 0xaa, 0xaa]);

    let seq = Identifier {
        class: Class::Universal,
        pc: PC::Constructed,
        tag: TagEncoded::Short(0x10),
    };
    let mut one = [0u8; 1];
    assert_eq!(seq.encode(&mut one), 1);
    assert_eq!(one, [0x30]);

    let private = Identifier {
        class: Class::Private,
        pc: PC::Constructed,
        tag: TagEncoded::Long(u32::MAX),
    };
    let mut six = [0u8; 6];
    assert_eq!(private.encode(&mut six), 6);
    assert_eq!(six, [0xff, 0x8f, 0xff, 0xff, 0xff, 0x7f]);
}

#[test]
fn identifier_decode_exact() {
    assert_eq!(
        Identifier::decode(&[0x30, 0x59]),
        Ok((
            Identifier {
                class: Class::Universal,
                pc: PC::Constructed,
                tag: TagEncoded::Short(0x10)
            },
            1
        ))
    );
    assert_eq!(
        Identifier::decode(&[0x5f, 0x81, 0x00, 0x77]),
        Ok((
            Identifier {
                class: Class::Application,
                pc: PC::Primitive,
                tag: TagEncoded::Long(128)
            },
            3
        ))
    );
}

#[test]
fn identifier_decode_errors() {
    assert_eq!(Identifier::decode(&[]), Err(DecodeError::EmptyHeader));
    assert_eq!(
        Identifier::decode(&[0x1f]),
        Err(DecodeError::TagEncodingIncomplete)
    );
    assert_eq!(
        Identifier::decode(&[0x1f, 0x81, 0x82]),
        Err(DecodeError::TagEncodingIncomplete)
    );
    assert_eq!(
        Identifier::decode(&[0x1f, 0x80, 0x01]),
        Err(DecodeError::TagEncodingNonCanonical)
    );
    // 5 limbs of 7 bits hold 35 bits: the largest that fits is 0x8f ff ff ff 7f
    assert_eq!(
        Identifier::decode(&[0x1f, 0x90, 0x80, 0x80, 0x80, 0x00]),
        Err(DecodeError::TagEncodingOverflow)
    );
    assert_eq!(
        Identifier::decode(&[0x1f, 0x8f, 0xff, 0xff, 0xff, 0xff, 0x00]),
        Err(DecodeError::TagEncodingOverflow)
    );
    // an overflow is found before the end of the input is
    assert_eq!(
        Identifier::decode(&[0x1f, 0xff, 0xff, 0xff, 0xff, 0xff]),
        Err(DecodeError::TagEncodingOverflow)
    );
    assert_eq!(
        Identifier::decode(&[0x1f, 0x8f, 0xff, 0xff, 0xff, 0x7f]),
        Ok((
            Identifier {
                class: Class::Universal,
                pc: PC::Primitive,
                tag: TagEncoded::Long(u32::MAX)
            },
            6
        ))
    );
}

#[test]
fn tag_new_smallest() {
    assert_eq!(TagEncoded::new_smallest(0), TagEncoded::Short(0));
    assert_eq!(TagEncoded::new_smallest(0x1e), TagEncoded::Short(0x1e));
    assert_eq!(TagEncoded::new_smallest(0x1f), TagEncoded::Long(0x1f));
    assert_eq!(TagEncoded::new_smallest(0x80), TagEncoded::Long(0x80));
    assert_eq!(TagEncoded::new_smallest(0x11).value(), 0x11);
    assert_eq!(TagEncoded::Long(70000).value(), 70000);
}

#[test]
fn length_new_smallest() {
    assert_eq!(Length::new_smallest(0), Length::Short(0));
    assert_eq!(Length::new_smallest(127), Length::Short(127));
    assert_eq!(
        Length::new_smallest(128),
        Length::Long {
            nb_bytes: 1,
            value: 128
        }
    );
    assert_eq!(
        Length::new_smallest(255),
        Length::Long {
            nb_bytes: 1,
            value: 255
        }
    );
    assert_eq!(
        Length::new_smallest(256),
        Length::Long {
            nb_bytes: 2,
            value: 256
        }
    );
    assert_eq!(
        Length::new_smallest(65536),
        Length::Long {
            nb_bytes: 3,
            value: 65536
        }
    );
    assert_eq!(
        Length::new_smallest(0x0100_0000),
        Length::Long {
            nb_bytes: 4,
            value: 0x0100_0000
        }
    );
    assert_eq!(
        Length::new_smallest(0xffff_ffff),
        Length::Long {
            nb_bytes: 4,
            value: 0xffff_ffff
        }
    );
}

#[test]
fn length_round_trip_sizes() {
    for v in [1usize, 127, 128, 255, 256, 65535, 65536, 2149214, 0xffff_ffff] {
        let length = Length::new_smallest(v);
        assert_eq!(length.value(), Some(v as u32));
        let mut buf = [0u8; 8];
        length.encode(&mut buf);
        let sz = length.size_bytes();
        assert_eq!(Length::decode(&buf), Ok((length, sz)));
    }
}

#[test]
fn length_exact_bytes() {
    let mut buf = [0xaau8; 6];
    Length::new_smallest(2149214).encode(&mut buf);
    assert_eq!(buf, [0x83, 0x20, 0xcb, 0x5e, 0xaa, 0xaa]);
    assert_eq!(Length::new_smallest(2149214).size_bytes(), 4);

    let mut buf = [0xaau8; 3];
    Length::Short(0x59).encode(&mut buf);
    assert_eq!(buf, [0x59, 0xaa, 0xaa]);
    assert_eq!(Length::Short(0x59).size_bytes(), 1);

    let mut buf = [0xaau8; 2];
    Length::Indefinite.encode(&mut buf);
    assert_eq!(buf, [0x80, 0xaa]);
    assert_eq!(Length::Indefinite.size_bytes(), 1);
    assert_eq!(Length::Indefinite.value(), None);

    // more bytes than the value needs are filled with zeros in front
    let wide = Length::Long {
        nb_bytes: 6,
        value: 0x0102_0304,
    };
    let mut buf = [0xaau8; 8];
    wide.encode(&mut buf);
    assert_eq!(buf, [0x86, 0, 0, 1, 2, 3, 4, 0xaa]);
    assert_eq!(wide.size_bytes(), 7);
    assert_eq!(Length::decode(&buf), Ok((wide, 7)));
}

#[test]
fn length_decode_errors() {
    assert_eq!(
        Length::decode(&[]),
        Err(LengthDecodeError::EncodingIncomplete)
    );
    assert_eq!(
        Length::decode(&[0x82, 0x01]),
        Err(LengthDecodeError::EncodingIncomplete)
    );
    assert_eq!(
        Length::decode(&[0x85, 0x01, 0x00, 0x00, 0x00, 0x00]),
        Err(LengthDecodeError::EncodingOverflow)
    );
    assert_eq!(Length::decode(&[0x80, 0x01]), Ok((Length::Indefinite, 1)));
    assert_eq!(Length::decode(&[0x7f]), Ok((Length::Short(0x7f), 1)));
    assert_eq!(
        Length::decode(&[0x84, 0xff, 0xff, 0xff, 0xff]),
        Ok((
            Length::Long {
                nb_bytes: 4,
                value: 0xffff_ffff
            },
            5
        ))
    );
}
