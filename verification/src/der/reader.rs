use vstd::prelude::*;
use vstd::arithmetic::power2::{lemma2_to64, pow2};
use vstd::string::StringSliceAdditionalSpecFns;
use vstd::utf8::valid_utf8;
use crate::header::constants::{
    TAG_BIT_STRING, TAG_BOOLEAN, TAG_ENUMERATED, TAG_INTEGER, TAG_NULL, TAG_OCTET_STRING, TAG_OID,
    TAG_SEQUENCE, TAG_SET,
};
use crate::header::{Class, DecodeError, Identifier, Length, LengthDecodeError, PC};
use crate::intenc::{is_int8, Integer8Bit};
use crate::objects::{is_oid, low_bits_clear, BitString, Enumerated, Integer, OID};

verus! {

/// ASN.1 DER Reader on slice
///
/// The reader is a cursor over bytes that it does not own. A read that
/// succeeds moves the cursor past one element; a read that fails leaves the
/// cursor where it was.
pub struct Reader<'a> {
    index: usize,
    slice: &'a [u8],
}

/// DER ASN.1 Error when reading data
#[derive(Debug, Clone, Copy, PartialEq, Eq, Structural)]
#[allow(inconsistent_fields)]
pub enum Error {
    ExpectedCType { expected: PC, got: PC },
    ExpectedTag { expected: u32, got: u32 },
    ExpectedClass { expected: Class, got: Class },
    IndefiniteLengthDER,
    BoolLengthInvalid(usize),
    BoolEncodingInvalid(u8),
    BitStringEncodingEmpty,
    BitStringEncodingInvalidStart,
    BitStringEncodingInvalidEnd,
    IntegerNotCanonical,
    Utf8Invalid,
    NullEncodingInvalid,
    OIDInvalid,
    ReaderNotTerminated { index: usize, len: usize },
    /// The identifier of the element cannot be decoded
    IdentifierInvalid(DecodeError),
    /// The length of the element cannot be decoded
    LengthInvalid(LengthDecodeError),
    /// The element announces more bytes than are left
    PayloadIncomplete { length: usize, remaining: usize },
}

/// What is asked of an identifier: the universal class, the given
/// constructed flag and the given tag number, in this order.
pub open spec fn spec_expect(header: Identifier, pc: PC, tag: u32) -> Result<(), Error> {
    if header.class != Class::Universal {
        Err(Error::ExpectedClass { expected: Class::Universal, got: header.class })
    } else if header.pc != pc {
        Err(Error::ExpectedCType { expected: pc, got: header.pc })
    } else if header.tag.spec_value() != tag {
        Err(Error::ExpectedTag { expected: tag, got: header.tag.spec_value() })
    } else {
        Ok(())
    }
}

/// The identifier and the length at the start of `s`, with the number of
/// bytes that the two take.
pub open spec fn spec_header(s: Seq<u8>) -> Result<(Identifier, Length, int), Error> {
    match Identifier::spec_decode(s) {
        Err(e) => Err(Error::IdentifierInvalid(e)),
        Ok((identifier, n1)) => match Length::spec_decode(s.skip(n1)) {
            Err(e) => Err(Error::LengthInvalid(e)),
            Ok((length, n2)) => Ok((identifier, length, n1 + n2)),
        },
    }
}

/// The payload of the given length at the start of `s`.
pub open spec fn spec_payload(s: Seq<u8>, length: Length) -> Result<Seq<u8>, Error> {
    match length.spec_value() {
        None => Err(Error::IndefiniteLengthDER),
        Some(v) => if v > s.len() {
            Err(Error::PayloadIncomplete { length: v as usize, remaining: s.len() as usize })
        } else {
            Ok(s.take(v as int))
        },
    }
}

/// The element at the start of `s`, whichever it is: identifier, length and
/// payload, with the number of bytes of the whole.
pub open spec fn spec_anything(s: Seq<u8>) -> Result<(Identifier, Length, Seq<u8>, int), Error> {
    match spec_header(s) {
        Err(e) => Err(e),
        Ok((identifier, length, n)) => match spec_payload(s.skip(n), length) {
            Err(e) => Err(e),
            Ok(payload) => Ok((identifier, length, payload, n + payload.len())),
        },
    }
}

/// The payload of the element at the start of `s`, which must be of the
/// universal class with the given constructed flag and tag number, and the
/// number of bytes of the whole element.
pub open spec fn spec_element(s: Seq<u8>, pc: PC, tag: u32) -> Result<(Seq<u8>, int), Error> {
    match spec_header(s) {
        Err(e) => Err(e),
        Ok((identifier, length, n)) => match spec_expect(identifier, pc, tag) {
            Err(e) => Err(e),
            Ok(_) => match spec_payload(s.skip(n), length) {
                Err(e) => Err(e),
                Ok(payload) => Ok((payload, n + payload.len())),
            },
        },
    }
}

/// The BOOLEAN at the start of `s`: one byte, `0x00` for false and `0xff`
/// for true.
pub open spec fn spec_bool(s: Seq<u8>) -> Result<(bool, int), Error> {
    match spec_element(s, PC::Primitive, TAG_BOOLEAN) {
        Err(e) => Err(e),
        Ok((payload, n)) => if payload.len() != 1 {
            Err(Error::BoolLengthInvalid(payload.len() as usize))
        } else if payload[0] == 0 {
            Ok((false, n))
        } else if payload[0] == 0xff {
            Ok((true, n))
        } else {
            Err(Error::BoolEncodingInvalid(payload[0]))
        },
    }
}

/// The canonical 8-bit integer that is the payload of the primitive element
/// with the given tag at the start of `s`.
pub open spec fn spec_integer(s: Seq<u8>, tag: u32) -> Result<(Seq<u8>, int), Error> {
    match spec_element(s, PC::Primitive, tag) {
        Err(e) => Err(e),
        Ok((payload, n)) => if is_int8(payload) {
            Ok((payload, n))
        } else {
            Err(Error::IntegerNotCanonical)
        },
    }
}

/// What is wrong with `payload` as a BIT STRING, if anything.
pub open spec fn spec_bitstring_payload(payload: Seq<u8>) -> Result<(), Error> {
    if payload.len() == 0 {
        Err(Error::BitStringEncodingEmpty)
    } else if payload[0] > 7 {
        Err(Error::BitStringEncodingInvalidStart)
    } else if payload[0] > 0 && payload.len() == 1 {
        Err(Error::BitStringEncodingInvalidStart)
    } else if payload[0] > 0 && !low_bits_clear(payload.last(), payload[0]) {
        Err(Error::BitStringEncodingInvalidEnd)
    } else {
        Ok(())
    }
}

/// The BIT STRING at the start of `s`.
pub open spec fn spec_bitstring(s: Seq<u8>) -> Result<(Seq<u8>, int), Error> {
    match spec_element(s, PC::Primitive, TAG_BIT_STRING) {
        Err(e) => Err(e),
        Ok((payload, n)) => match spec_bitstring_payload(payload) {
            Err(e) => Err(e),
            Ok(_) => Ok((payload, n)),
        },
    }
}

/// The UTF-8 string at the start of `s`. It is looked for under the tag of
/// the OCTET STRING.
pub open spec fn spec_utf8_string(s: Seq<u8>) -> Result<(Seq<u8>, int), Error> {
    match spec_element(s, PC::Primitive, TAG_OCTET_STRING) {
        Err(e) => Err(e),
        Ok((payload, n)) => if valid_utf8(payload) {
            Ok((payload, n))
        } else {
            Err(Error::Utf8Invalid)
        },
    }
}

/// The NULL at the start of `s`: an element without payload.
pub open spec fn spec_null(s: Seq<u8>) -> Result<int, Error> {
    match spec_element(s, PC::Primitive, TAG_NULL) {
        Err(e) => Err(e),
        Ok((payload, n)) => if payload.len() == 0 {
            Ok(n)
        } else {
            Err(Error::NullEncodingInvalid)
        },
    }
}

/// The OBJECT IDENTIFIER at the start of `s`.
pub open spec fn spec_oid(s: Seq<u8>) -> Result<(Seq<u8>, int), Error> {
    match spec_element(s, PC::Primitive, TAG_OID) {
        Err(e) => Err(e),
        Ok((payload, n)) => if is_oid(payload) {
            Ok((payload, n))
        } else {
            Err(Error::OIDInvalid)
        },
    }
}

fn expect(header: &Identifier, pc: PC, tag: u32) -> (r: Result<(), Error>)
    ensures
        r == spec_expect(*header, pc, tag),
{
    if header.class != Class::Universal {
        return Err(Error::ExpectedClass { expected: Class::Universal, got: header.class });
    }
    if header.pc != pc {
        return Err(Error::ExpectedCType { expected: pc, got: header.pc });
    }
    if header.tag.value() != tag {
        return Err(Error::ExpectedTag { expected: tag, got: header.tag.value() });
    }
    Ok(())
}

/// `core::str::from_utf8`: the bytes as a string slice if they are valid
/// UTF-8, and nothing if they are not. The string is the bytes themselves.
#[verifier::external_body]
fn str_from_utf8<'a>(bytes: &'a [u8]) -> (r: Option<&'a str>)
    ensures
        r is Some == valid_utf8(bytes@),
        r matches Some(s) ==> s.spec_bytes() == bytes@,
{
    match core::str::from_utf8(bytes) {
        Ok(s) => Some(s),
        Err(_) => None,
    }
}

/// The elements of a DER SET, one at a time.
///
/// It pairs the reader of the payload of the SET with the function that
/// parses one element.
pub struct SetElements<'a, F> {
    reader: Reader<'a>,
    parser: F,
}

impl<'a, F: Clone> Clone for SetElements<'a, F> {
    fn clone(&self) -> (r: Self)
        ensures
            r.reader() == self.reader(),
    {
        SetElements { reader: self.reader.clone(), parser: self.parser.clone() }
    }
}

impl<'a, F> SetElements<'a, F> {
    /// The reader of what is left of the payload.
    pub closed spec fn reader(&self) -> Reader<'a> {
        self.reader
    }

    /// The function that parses one element.
    pub closed spec fn parser(&self) -> F {
        self.parser
    }

    /// Parse the next element, if the payload has bytes left.
    ///
    /// The parser is run where the reader stands. Where it succeeds the
    /// reader is left as the parser left it; where it fails the reader does
    /// not move, and the error is the element's result.
    pub fn next<A>(&mut self) -> (r: Option<Result<A, Error>>) where
        F: Fn(&mut Reader<'a>) -> Result<A, Error>,

        requires
            forall|w: &mut Reader<'a>|
                *w == old(self).reader() ==> #[trigger] old(self).parser().requires((w,)),
        ensures
            final(self).parser() == old(self).parser(),
            old(self).reader()@.len() == 0 ==> {
                &&& r is None
                &&& final(self).reader() == old(self).reader()
            },
            old(self).reader()@.len() != 0 ==> r is Some && exists|w: &mut Reader<'a>|
                {
                    &&& *w == old(self).reader()
                    &&& #[trigger] old(self).parser().ensures((w,), r.unwrap())
                    &&& final(self).reader() == if r.unwrap() is Ok {
                        *final(w)
                    } else {
                        old(self).reader()
                    }
                },
    {
        proof {
            use_type_invariant(&self.reader);
        }
        if self.reader.index < self.reader.slice.len() {
            let mut attempt = Reader { index: self.reader.index, slice: self.reader.slice };
            assert(self.parser == old(self).parser());
            let r = (self.parser)(&mut attempt);
            if r.is_ok() {
                self.reader = attempt;
            }
            assert(Some(r).unwrap() == r);
            Some(r)
        } else {
            None
        }
    }
}

impl<'a> Clone for Reader<'a> {
    fn clone(&self) -> (r: Self)
        ensures
            r == *self,
    {
        proof {
            use_type_invariant(self);
        }
        Reader { index: self.index, slice: self.slice }
    }
}

impl<'a> Reader<'a> {
    #[verifier::type_invariant]
    spec fn within(&self) -> bool {
        self.index <= self.slice@.len()
    }

    /// All the bytes that the reader was made on.
    pub closed spec fn bytes(&self) -> Seq<u8> {
        self.slice@
    }

    /// The number of bytes that were read.
    pub closed spec fn position(&self) -> nat {
        self.index as nat
    }

    /// The bytes that are still to be read.
    pub open spec fn view(&self) -> Seq<u8> {
        self.bytes().skip(self.position() as int)
    }

    /// The reader is `before` moved on by `n` bytes.
    pub open spec fn advanced(&self, before: &Self, n: int) -> bool {
        &&& self.bytes() == before.bytes()
        &&& self.position() == before.position() + n
        &&& self.position() <= self.bytes().len()
        &&& self@ == before@.skip(n)
    }

    /// Create a new DER Reader where the read buffer is given by the user
    pub fn new(slice: &'a [u8]) -> (r: Self)
        ensures
            r.bytes() == slice@,
            r.position() == 0,
            r@ == slice@,
    {
        Reader { slice, index: 0 }
    }

    fn next(&mut self) -> (r: Result<(Identifier, Length), Error>)
        ensures
            match spec_header(old(self)@) {
                Ok((identifier, length, n)) => r == Ok::<_, Error>((identifier, length))
                    && final(self).advanced(old(self), n) && final(self).slice == old(self).slice
                    && identifier.wf() && length.wf(),
                Err(e) => r == Err::<(Identifier, Length), _>(e) && *final(self) == *old(self),
            },
    {
        proof {
            use_type_invariant(&*self);
        }
        let rest = &self.slice[self.index..self.slice.len()];
        let (hdr, sz) = match Identifier::decode(rest) {
            Ok(v) => v,
            Err(e) => {
                return Err(Error::IdentifierInvalid(e));
            },
        };
        let rest = &self.slice[self.index + sz..self.slice.len()];
        assert(rest@ =~= self@.skip(sz as int));
        let (len, sz2) = match Length::decode(rest) {
            Ok(v) => v,
            Err(e) => {
                return Err(Error::LengthInvalid(e));
            },
        };
        self.index = self.index + sz + sz2;
        assert(self@ =~= old(self)@.skip(sz + sz2));
        Ok((hdr, len))
    }

    fn next_expect(&mut self, pc: PC, tag: u32) -> (r: Result<Length, Error>)
        ensures
            match spec_header(old(self)@) {
                Ok((identifier, length, n)) => match spec_expect(identifier, pc, tag) {
                    Ok(_) => r == Ok::<_, Error>(length) && final(self).advanced(old(self), n)
                        && final(self).slice == old(self).slice && length.wf(),
                    Err(e) => r == Err::<Length, _>(e) && *final(self) == *old(self),
                },
                Err(e) => r == Err::<Length, _>(e) && *final(self) == *old(self),
            },
    {
        proof {
            use_type_invariant(&*self);
        }
        let start = self.index;
        let (hdr, len) = self.next()?;
        match expect(&hdr, pc, tag) {
            Ok(_) => Ok(len),
            Err(e) => {
                self.index = start;
                Err(e)
            },
        }
    }

    fn subslice(&mut self, length: Length) -> (r: Result<&'a [u8], Error>)
        ensures
            match spec_payload(old(self)@, length) {
                Ok(payload) => {
                    &&& r is Ok
                    &&& r.unwrap()@ == payload
                    &&& final(self).advanced(old(self), payload.len() as int)
                    &&& final(self).slice == old(self).slice
                },
                Err(e) => r == Err::<&[u8], _>(e) && *final(self) == *old(self),
            },
    {
        proof {
            use_type_invariant(&*self);
        }
        let len = match length {
            Length::Indefinite => {
                return Err(Error::IndefiniteLengthDER);
            },
            Length::Short(v) => v as usize,
            Length::Long { nb_bytes: _, value } => value as usize,
        };
        let remaining = self.slice.len() - self.index;
        if len > remaining {
            return Err(Error::PayloadIncomplete { length: len, remaining });
        }
        let sub = &self.slice[self.index..self.index + len];
        self.index += len;
        assert(self@ =~= old(self)@.skip(len as int));
        Ok(sub)
    }

    fn subslice_reader(&mut self, length: Length) -> (r: Result<Reader<'a>, Error>)
        ensures
            match spec_payload(old(self)@, length) {
                Ok(payload) => {
                    &&& r is Ok
                    &&& r.unwrap().bytes() == payload
                    &&& r.unwrap().position() == 0
                    &&& r.unwrap()@ == payload
                    &&& final(self).advanced(old(self), payload.len() as int)
                    &&& final(self).slice == old(self).slice
                },
                Err(e) => r == Err::<Reader<'a>, _>(e) && *final(self) == *old(self),
            },
    {
        let slice = self.subslice(length)?;
        Ok(Self::new(slice))
    }

    // The reader of the payload of the next element, which must be of the
    // universal class, constructed, with the given tag number.
    fn constructed(&mut self, tag: u32) -> (r: Result<Reader<'a>, Error>)
        ensures
            match spec_element(old(self)@, PC::Constructed, tag) {
                Ok((payload, n)) => {
                    &&& r is Ok
                    &&& r.unwrap().bytes() == payload
                    &&& r.unwrap().position() == 0
                    &&& r.unwrap()@ == payload
                    &&& final(self).advanced(old(self), n)
                },
                Err(e) => r == Err::<Reader<'a>, _>(e) && *final(self) == *old(self),
            },
    {
        proof {
            use_type_invariant(&*self);
        }
        let start = self.index;
        let len = self.next_expect(PC::Constructed, tag)?;
        match self.subslice_reader(len) {
            Ok(sub) => {
                assert(self@ =~= old(self)@.skip(self.index - start));
                Ok(sub)
            },
            Err(e) => {
                self.index = start;
                Err(e)
            },
        }
    }

    // The payload of the next element, which must be of the universal class
    // with the given constructed flag and tag number.
    fn element(&mut self, pc: PC, tag: u32) -> (r: Result<&'a [u8], Error>)
        ensures
            match spec_element(old(self)@, pc, tag) {
                Ok((payload, n)) => {
                    &&& r is Ok
                    &&& r.unwrap()@ == payload
                    &&& final(self).advanced(old(self), n)
                    &&& final(self).slice == old(self).slice
                },
                Err(e) => r == Err::<&[u8], _>(e) && *final(self) == *old(self),
            },
    {
        proof {
            use_type_invariant(&*self);
        }
        let start = self.index;
        let len = self.next_expect(pc, tag)?;
        match self.subslice(len) {
            Ok(sub) => {
                assert(self@ =~= old(self)@.skip(self.index - start));
                Ok(sub)
            },
            Err(e) => {
                self.index = start;
                Err(e)
            },
        }
    }

    /// Get the next Tag / Length / Value triple, whichever it is
    ///
    /// This is the way past an element that no other read accepts.
    pub fn anything(&mut self) -> (r: Result<(Identifier, Length, &'a [u8]), Error>)
        ensures
            match spec_anything(old(self)@) {
                Ok((identifier, length, payload, n)) => {
                    &&& r is Ok
                    &&& r.unwrap().0 == identifier
                    &&& r.unwrap().1 == length
                    &&& r.unwrap().2@ == payload
                    &&& final(self).advanced(old(self), n)
                },
                Err(e) => {
                    &&& r == Err::<(Identifier, Length, &[u8]), _>(e)
                    &&& *final(self) == *old(self)
                },
            },
    {
        proof {
            use_type_invariant(&*self);
        }
        let start = self.index;
        let (identifier, length) = self.next()?;
        match self.subslice(length) {
            Ok(slice) => {
                assert(self@ =~= old(self)@.skip(self.index - start));
                Ok((identifier, length, slice))
            },
            Err(e) => {
                self.index = start;
                Err(e)
            },
        }
    }

    /// Get the next boolean from the stream
    pub fn bool(&mut self) -> (r: Result<bool, Error>)
        ensures
            match spec_bool(old(self)@) {
                Ok((v, n)) => r == Ok::<_, Error>(v) && final(self).advanced(old(self), n),
                Err(e) => r == Err::<bool, _>(e) && *final(self) == *old(self),
            },
    {
        proof {
            use_type_invariant(&*self);
        }
        let start = self.index;
        let sub = self.element(PC::Primitive, TAG_BOOLEAN)?;
        if sub.len() == 1 {
            let v = sub[0];
            if v == 0 {
                Ok(false)
            } else if v == 0xff {
                Ok(true)
            } else {
                self.index = start;
                Err(Error::BoolEncodingInvalid(v))
            }
        } else {
            self.index = start;
            Err(Error::BoolLengthInvalid(sub.len()))
        }
    }

    /// Get the next integer from the stream
    pub fn integer(&mut self) -> (r: Result<Integer<'a>, Error>)
        ensures
            match spec_integer(old(self)@, TAG_INTEGER) {
                Ok((payload, n)) => {
                    &&& r is Ok
                    &&& r.unwrap()@ == payload
                    &&& final(self).advanced(old(self), n)
                },
                Err(e) => r == Err::<Integer<'a>, _>(e) && *final(self) == *old(self),
            },
    {
        proof {
            use_type_invariant(&*self);
        }
        let start = self.index;
        let sub = self.element(PC::Primitive, TAG_INTEGER)?;
        match Integer8Bit::from_slice(sub) {
            Ok(i8) => Ok(Integer::from_inner_slice(i8)),
            Err(_) => {
                self.index = start;
                Err(Error::IntegerNotCanonical)
            },
        }
    }

    /// Get the next enumerated from the stream
    pub fn enumerated(&mut self) -> (r: Result<Enumerated<'a>, Error>)
        ensures
            match spec_integer(old(self)@, TAG_ENUMERATED) {
                Ok((payload, n)) => {
                    &&& r is Ok
                    &&& r.unwrap()@ == payload
                    &&& final(self).advanced(old(self), n)
                },
                Err(e) => r == Err::<Enumerated<'a>, _>(e) && *final(self) == *old(self),
            },
    {
        proof {
            use_type_invariant(&*self);
        }
        let start = self.index;
        let sub = self.element(PC::Primitive, TAG_ENUMERATED)?;
        match Integer8Bit::from_slice(sub) {
            Ok(i8) => Ok(Enumerated::from_inner_slice(i8)),
            Err(_) => {
                self.index = start;
                Err(Error::IntegerNotCanonical)
            },
        }
    }

    /// Get the next bitstring from the stream
    pub fn bitstring(&mut self) -> (r: Result<BitString<'a>, Error>)
        ensures
            match spec_bitstring(old(self)@) {
                Ok((payload, n)) => {
                    &&& r is Ok
                    &&& r.unwrap()@ == payload
                    &&& final(self).advanced(old(self), n)
                },
                Err(e) => r == Err::<BitString<'a>, _>(e) && *final(self) == *old(self),
            },
    {
        proof {
            use_type_invariant(&*self);
        }
        let start = self.index;
        let sub = self.element(PC::Primitive, TAG_BIT_STRING)?;
        if sub.len() == 0 {
            self.index = start;
            return Err(Error::BitStringEncodingEmpty);
        }
        let bit_unused = sub[0];
        if bit_unused > 7 {
            self.index = start;
            return Err(Error::BitStringEncodingInvalidStart);
        }
        if bit_unused > 0 {
            if sub.len() == 1 {
                self.index = start;
                return Err(Error::BitStringEncodingInvalidStart);
            }
            let last = sub[sub.len() - 1];
            assert(1 <= bit_unused <= 7 ==> 1u8 << bit_unused >= 2 && ((last & ((1u8 << bit_unused)
                - 1) as u8) == 0 <==> last % (1u8 << bit_unused) == 0)) by (bit_vector);
            assert((bit_unused == 1 ==> 1u8 << bit_unused == 2) && (bit_unused == 2 ==> 1u8
                << bit_unused == 4) && (bit_unused == 3 ==> 1u8 << bit_unused == 8) && (bit_unused
                == 4 ==> 1u8 << bit_unused == 16) && (bit_unused == 5 ==> 1u8 << bit_unused == 32)
                && (bit_unused == 6 ==> 1u8 << bit_unused == 64) && (bit_unused == 7 ==> 1u8
                << bit_unused == 128)) by (bit_vector);
            proof {
                lemma2_to64();
            }
            let mask: u8 = (1u8 << bit_unused) - 1;
            if last & mask != 0 {
                self.index = start;
                return Err(Error::BitStringEncodingInvalidEnd);
            }
        }
        Ok(BitString::from_raw_slice(sub))
    }

    /// Get the next octetstring from the stream
    pub fn octetstring(&mut self) -> (r: Result<&'a [u8], Error>)
        ensures
            match spec_element(old(self)@, PC::Primitive, TAG_OCTET_STRING) {
                Ok((payload, n)) => {
                    &&& r is Ok
                    &&& r.unwrap()@ == payload
                    &&& final(self).advanced(old(self), n)
                },
                Err(e) => r == Err::<&[u8], _>(e) && *final(self) == *old(self),
            },
    {
        self.element(PC::Primitive, TAG_OCTET_STRING)
    }

    /// Get the next utf8 string from the stream
    ///
    /// The string is looked for under the tag of the OCTET STRING, and its
    /// bytes must be valid UTF-8.
    pub fn utf8_string(&mut self) -> (r: Result<&'a str, Error>)
        ensures
            match spec_utf8_string(old(self)@) {
                Ok((payload, n)) => {
                    &&& r is Ok
                    &&& r.unwrap().spec_bytes() == payload
                    &&& final(self).advanced(old(self), n)
                },
                Err(e) => r == Err::<&str, _>(e) && *final(self) == *old(self),
            },
    {
        proof {
            use_type_invariant(&*self);
        }
        let start = self.index;
        let sub = self.element(PC::Primitive, TAG_OCTET_STRING)?;
        match str_from_utf8(sub) {
            Some(s) => Ok(s),
            None => {
                self.index = start;
                Err(Error::Utf8Invalid)
            },
        }
    }

    /// Get the next null from the stream
    pub fn null(&mut self) -> (r: Result<(), Error>)
        ensures
            match spec_null(old(self)@) {
                Ok(n) => r == Ok::<_, Error>(()) && final(self).advanced(old(self), n),
                Err(e) => r == Err::<(), _>(e) && *final(self) == *old(self),
            },
    {
        proof {
            use_type_invariant(&*self);
        }
        let start = self.index;
        let sub = self.element(PC::Primitive, TAG_NULL)?;
        if sub.len() != 0 {
            self.index = start;
            return Err(Error::NullEncodingInvalid);
        }
        Ok(())
    }

    /// Get the next OID from the stream
    pub fn oid(&mut self) -> (r: Result<OID<'a>, Error>)
        ensures
            match spec_oid(old(self)@) {
                Ok((payload, n)) => {
                    &&& r is Ok
                    &&& r.unwrap()@ == payload
                    &&& final(self).advanced(old(self), n)
                },
                Err(e) => r == Err::<OID<'a>, _>(e) && *final(self) == *old(self),
            },
    {
        proof {
            use_type_invariant(&*self);
        }
        let start = self.index;
        let sub = self.element(PC::Primitive, TAG_OID)?;
        match OID::parse_from_slice(sub) {
            Ok(oid) => Ok(oid),
            Err(_) => {
                self.index = start;
                Err(Error::OIDInvalid)
            },
        }
    }

    /// Get the next sequence from the stream as a Reader
    pub fn sequence(&mut self) -> (r: Result<Reader<'a>, Error>)
        ensures
            match spec_element(old(self)@, PC::Constructed, TAG_SEQUENCE) {
                Ok((payload, n)) => {
                    &&& r is Ok
                    &&& r.unwrap().bytes() == payload
                    &&& r.unwrap().position() == 0
                    &&& r.unwrap()@ == payload
                    &&& final(self).advanced(old(self), n)
                },
                Err(e) => r == Err::<Reader<'a>, _>(e) && *final(self) == *old(self),
            },
    {
        self.constructed(TAG_SEQUENCE)
    }

    /// Get the next set from the stream, as its elements to be parsed one
    /// at a time by `f`
    pub fn set<A, F>(&mut self, f: F) -> (r: Result<SetElements<'a, F>, Error>) where
        F: Fn(&mut Reader<'a>) -> Result<A, Error>,

        ensures
            match spec_element(old(self)@, PC::Constructed, TAG_SET) {
                Ok((payload, n)) => {
                    &&& r is Ok
                    &&& r.unwrap().reader().bytes() == payload
                    &&& r.unwrap().reader().position() == 0
                    &&& r.unwrap().reader()@ == payload
                    &&& r.unwrap().parser() == f
                    &&& final(self).advanced(old(self), n)
                },
                Err(e) => r == Err::<SetElements<'a, F>, _>(e) && *final(self) == *old(self),
            },
    {
        let reader = self.constructed(TAG_SET)?;
        Ok(SetElements { reader, parser: f })
    }

    /// Check is the stream is done
    ///
    /// If the reader is not finished, then the Error::ReaderNotTerminated is returned
    pub fn done(&self) -> (r: Result<(), Error>)
        ensures
            r == (if self.position() == self.bytes().len() {
                Ok::<(), Error>(())
            } else {
                Err::<(), Error>(
                    Error::ReaderNotTerminated {
                        index: self.position() as usize,
                        len: self.bytes().len() as usize,
                    },
                )
            }),
    {
        if self.index == self.slice.len() {
            Ok(())
        } else {
            Err(Error::ReaderNotTerminated { index: self.index, len: self.slice.len() })
        }
    }

    /// Get the position of the reader in the slice
    pub fn current_position(&self) -> (r: usize)
        ensures
            r == self.position(),
            r <= self.bytes().len(),
    {
        proof {
            use_type_invariant(self);
        }
        self.index
    }

    /// Get the remaining buffer as a slice
    pub fn remaining(&self) -> (r: &'a [u8])
        ensures
            r@ == self@,
    {
        proof {
            use_type_invariant(self);
        }
        &self.slice[self.index..self.slice.len()]
    }
}

} // verus!
