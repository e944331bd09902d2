//! Distinguished Encoding Rules (DER) Reader and Writer
//!
//! This encoding enforces one canonical representation of the encoding,
//! where the efficiency is biased towards the reader.
//!
//! This is the usual format of cryptographic material.

pub mod reader;
pub mod writer;

pub use self::reader::{Reader, SetElements};
pub use self::writer::Writer;

use vstd::prelude::*;
use crate::der::reader::{
    spec_bitstring, spec_bitstring_payload, spec_bool, spec_element, spec_integer, spec_null,
    spec_oid, Error,
};
use crate::der::writer::{spec_primitive, spec_sequence, spec_tlv, universal};
use crate::header::constants::{
    TAG_BIT_STRING, TAG_BOOLEAN, TAG_NULL, TAG_OCTET_STRING, TAG_OID, TAG_SEQUENCE,
};
use crate::header::{Length, PC};
use crate::intenc::is_int8;
use crate::objects::{is_bitstring, is_oid};

verus! {

/// An element that the writer writes is the element that the reader reads:
/// the same payload, and as many bytes taken as were written, whatever
/// follows them.
pub proof fn lemma_read_written(pc: PC, tag: u32, payload: Seq<u8>, rest: Seq<u8>)
    requires
        payload.len() <= u32::MAX,
    ensures
        spec_element(spec_tlv(universal(pc, tag), payload) + rest, pc, tag) == Ok::<_, Error>(
            (payload, spec_tlv(universal(pc, tag), payload).len() as int),
        ),
{
    let identifier = universal(pc, tag);
    let length = Length::spec_new_smallest(payload.len());
    let s = spec_tlv(identifier, payload) + rest;
    let n1 = identifier.spec_size_bytes() as int;
    let n2 = length.spec_size_bytes() as int;
    identifier.lemma_encode_size();
    length.lemma_encode_size();
    assert(s =~= identifier.spec_encode() + (length.spec_encode() + payload + rest));
    identifier.lemma_decode_encode(length.spec_encode() + payload + rest);
    assert(s.skip(n1) =~= length.spec_encode() + (payload + rest));
    Length::lemma_decode_encode_smallest(payload.len(), payload + rest);
    assert(s.skip(n1 + n2) =~= payload + rest);
    assert((payload + rest).take(payload.len() as int) =~= payload);
}

/// A BOOLEAN that was written is read as the same truth value.
pub proof fn lemma_read_written_bool(b: bool, rest: Seq<u8>)
    ensures
        spec_bool(
            spec_primitive(
                TAG_BOOLEAN,
                seq![if b {
                    0xffu8
                } else {
                    0u8
                }],
            ) + rest,
        ) == Ok::<_, Error>((b, 3int)),
{
    let payload = seq![if b {
        0xffu8
    } else {
        0u8
    }];
    lemma_read_written(PC::Primitive, TAG_BOOLEAN, payload, rest);
    universal(PC::Primitive, TAG_BOOLEAN).lemma_encode_size();
    Length::spec_new_smallest(1).lemma_encode_size();
}

/// A NULL that was written is read as a NULL.
pub proof fn lemma_read_written_null(rest: Seq<u8>)
    ensures
        spec_null(spec_primitive(TAG_NULL, Seq::empty()) + rest) == Ok::<_, Error>(2int),
{
    lemma_read_written(PC::Primitive, TAG_NULL, Seq::empty(), rest);
    universal(PC::Primitive, TAG_NULL).lemma_encode_size();
    Length::spec_new_smallest(0).lemma_encode_size();
}

/// The payloads of an INTEGER or ENUMERATED, of a BIT STRING and of an
/// OBJECT IDENTIFIER that were written are read again as they are, since the
/// typed views hold only payloads that the reader accepts.
pub proof fn lemma_read_written_objects(tag: u32, payload: Seq<u8>, rest: Seq<u8>)
    requires
        payload.len() <= u32::MAX,
    ensures
        is_int8(payload) ==> spec_integer(spec_primitive(tag, payload) + rest, tag) == Ok::<
            _,
            Error,
        >((payload, spec_primitive(tag, payload).len() as int)),
        is_bitstring(payload) ==> spec_bitstring(spec_primitive(TAG_BIT_STRING, payload) + rest)
            == Ok::<_, Error>((payload, spec_primitive(TAG_BIT_STRING, payload).len() as int)),
        is_oid(payload) ==> spec_oid(spec_primitive(TAG_OID, payload) + rest) == Ok::<_, Error>(
            (payload, spec_primitive(TAG_OID, payload).len() as int),
        ),
{
    lemma_read_written(PC::Primitive, tag, payload, rest);
    lemma_read_written(PC::Primitive, TAG_BIT_STRING, payload, rest);
    lemma_read_written(PC::Primitive, TAG_OID, payload, rest);
}

/// The content of a SEQUENCE that was written is what the reader of that
/// SEQUENCE is made on.
pub proof fn lemma_read_written_sequence(content: Seq<u8>, rest: Seq<u8>)
    requires
        content.len() <= u32::MAX,
    ensures
        spec_element(spec_sequence(content) + rest, PC::Constructed, TAG_SEQUENCE) == Ok::<
            _,
            Error,
        >((content, spec_sequence(content).len() as int)),
{
    lemma_read_written(PC::Constructed, TAG_SEQUENCE, content, rest);
}

/// An OCTET STRING that was written is read as the same bytes.
pub proof fn lemma_read_written_octetstring(payload: Seq<u8>, rest: Seq<u8>)
    requires
        payload.len() <= u32::MAX,
    ensures
        spec_element(
            spec_primitive(TAG_OCTET_STRING, payload) + rest,
            PC::Primitive,
            TAG_OCTET_STRING,
        ) == Ok::<_, Error>((payload, spec_primitive(TAG_OCTET_STRING, payload).len() as int)),
{
    lemma_read_written(PC::Primitive, TAG_OCTET_STRING, payload, rest);
}

} // verus!
