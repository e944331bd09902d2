//! Typed views of validated payloads.
//!
//! A value of one of these types can only be made from bytes that were
//! checked, so its accessors need no further checks.

use vstd::prelude::*;
use vstd::arithmetic::power2::pow2;
use crate::intenc::{
    cont7_len, is_cont7, is_int8, value_base128, value_base256, Integer8Bit, IntegerContBit7,
};

verus! {

/// The `n` low bits of `last` are zero.
pub open spec fn low_bits_clear(last: u8, n: u8) -> bool {
    last as nat % pow2(n as nat) == 0
}

/// `s` is the payload of a BIT STRING: a count of unused bits from 0 to 7,
/// then the data; unused bits need a last data byte to be in, and are zero.
pub open spec fn is_bitstring(s: Seq<u8>) -> bool {
    &&& s.len() > 0
    &&& s[0] <= 7
    &&& s[0] > 0 ==> s.len() > 1 && low_bits_clear(s.last(), s[0])
}

/// `s` is a run of canonical 7-bit integers with nothing left over.
pub open spec fn is_arcs(s: Seq<u8>) -> bool
    decreases s.len(),
{
    s.len() == 0 || match cont7_len(s) {
        Some(n) => 0 < n <= s.len() && is_arcs(s.skip(n)),
        None => false,
    }
}

/// The canonical 7-bit integers that `s` is made of, in order.
pub open spec fn arcs(s: Seq<u8>) -> Seq<Seq<u8>>
    decreases s.len(),
{
    match cont7_len(s) {
        Some(n) => if 0 < n <= s.len() {
            seq![s.take(n)] + arcs(s.skip(n))
        } else {
            Seq::empty()
        },
        None => Seq::empty(),
    }
}

/// `s` is the payload of an OBJECT IDENTIFIER: a byte for the first two
/// arcs, the first of them at most 2, then the other arcs.
pub open spec fn is_oid(s: Seq<u8>) -> bool {
    &&& s.len() > 0
    &&& s[0] / 40 <= 2
    &&& is_arcs(s.skip(1))
}

/// A run of arcs is empty exactly when there are no bytes, and otherwise
/// starts with the integer at the start of the bytes.
pub proof fn lemma_arcs_step(s: Seq<u8>)
    requires
        is_arcs(s),
    ensures
        s.len() == 0 <==> arcs(s).len() == 0,
        s.len() > 0 ==> cont7_len(s) is Some && arcs(s)[0] == s.take(cont7_len(s).unwrap())
            && arcs(s).drop_first() == arcs(s.skip(cont7_len(s).unwrap())) && is_arcs(
            s.skip(cont7_len(s).unwrap()),
        ),
{
}

/// A BIT STRING: a string of bits whose number need not be a multiple of 8.
#[derive(Debug, Clone, Copy, PartialEq, Eq, Hash)]
pub struct BitString<'a> {
    bytes: &'a [u8],
}

impl<'a> BitString<'a> {
    #[verifier::type_invariant]
    spec fn valid(&self) -> bool {
        is_bitstring(self.bytes@)
    }

    /// The payload: the count of unused bits, then the data.
    pub closed spec fn view(&self) -> Seq<u8> {
        self.bytes@
    }

    /// The number of bits of the string.
    pub open spec fn spec_bits(&self) -> nat {
        ((self@.len() - 1) * 8 - self@[0]) as nat
    }

    pub(crate) fn from_raw_slice(slice: &'a [u8]) -> (r: Self)
        requires
            is_bitstring(slice@),
        ensures
            r@ == slice@,
    {
        BitString { bytes: slice }
    }

    /// The payload as it is written.
    pub fn as_ref(&self) -> (r: &'a [u8])
        ensures
            r@ == self@,
            is_bitstring(r@),
    {
        proof {
            use_type_invariant(self);
        }
        self.bytes
    }

    /// Return the total number of bits of the bitstring
    pub fn bits(&self) -> (r: usize)
        requires
            (self@.len() - 1) * 8 <= usize::MAX,
        ensures
            r == self.spec_bits(),
            r == (self@.len() - 1) * 8 - self@[0],
    {
        proof {
            use_type_invariant(self);
        }
        let bits_unused = self.bytes[0];
        let bits = (self.bytes.len() - 1) * 8;
        bits - (bits_unused as usize)
    }

    /// Return the total number of unused bits on the bitstring
    pub fn bits_unused(&self) -> (r: usize)
        ensures
            r == self@[0],
            r <= 7,
    {
        proof {
            use_type_invariant(self);
        }
        self.bytes[0] as usize
    }

    /// Get the data associated with the bitstring as full bytes
    pub fn data_bytes(&self) -> (r: &'a [u8])
        ensures
            r@ == self@.skip(1),
    {
        proof {
            use_type_invariant(self);
        }
        &self.bytes[1..self.bytes.len()]
    }
}

/// An OBJECT IDENTIFIER: a path of numbers, the arcs.
#[derive(Debug, Clone, Copy, PartialEq, Eq, Hash)]
pub struct OID<'a> {
    bytes: &'a [u8],
}

impl<'a> OID<'a> {
    #[verifier::type_invariant]
    spec fn valid(&self) -> bool {
        is_oid(self.bytes@)
    }

    /// The payload: a byte for the first two arcs, then the other arcs.
    pub closed spec fn view(&self) -> Seq<u8> {
        self.bytes@
    }

    /// The encodings of the arcs after the second, in order.
    pub open spec fn spec_components(&self) -> Seq<Seq<u8>> {
        arcs(self@.skip(1))
    }

    /// The payload as it is written.
    pub fn as_ref(&self) -> (r: &'a [u8])
        ensures
            r@ == self@,
            is_oid(r@),
    {
        proof {
            use_type_invariant(self);
        }
        self.bytes
    }

    /// The first arc: 0, 1 or 2.
    pub fn value1(&self) -> (r: u8)
        ensures
            r == self@[0] / 40,
            r <= 2,
    {
        proof {
            use_type_invariant(self);
        }
        self.bytes[0] / 40
    }

    /// The second arc.
    pub fn value2(&self) -> (r: u8)
        ensures
            r == self@[0] % 40,
    {
        proof {
            use_type_invariant(self);
        }
        self.bytes[0] % 40
    }

    /// Return all trailing components, except the first and second value
    pub fn components(&self) -> (r: OIDComponents<'a>)
        ensures
            r@ == self.spec_components(),
    {
        proof {
            use_type_invariant(self);
        }
        OIDComponents { slice: *self, index: 1 }
    }

    /// Take `slice` as the payload of an OBJECT IDENTIFIER if it is one.
    pub fn parse_from_slice(slice: &'a [u8]) -> (r: Result<Self, ()>)
        ensures
            r is Ok == is_oid(slice@),
            r matches Ok(v) ==> v@ == slice@,
    {
        if slice.len() == 0 {
            return Err(());
        }
        let f = slice[0];
        // only 0, 1, and 2 are allowed.
        if (f / 40) > 2 {
            return Err(());
        }
        let mut index: usize = 1;
        while index < slice.len()
            invariant
                1 <= index <= slice@.len(),
                is_arcs(slice@.skip(1)) == is_arcs(slice@.skip(index as int)),
            decreases slice@.len() - index,
        {
            let rest = &slice[index..slice.len()];
            match IntegerContBit7::parse_from_slice(rest) {
                Err(_) => {
                    return Err(());
                },
                Ok((_, adv)) => {
                    assert(rest@.skip(adv as int) =~= slice@.skip(index + adv));
                    index += adv;
                },
            }
        }
        Ok(OID { bytes: slice })
    }
}

/// The arcs of an OBJECT IDENTIFIER after the second, one at a time.
#[derive(Debug)]
pub struct OIDComponents<'a> {
    slice: OID<'a>,
    index: usize,
}

impl<'a> Clone for OIDComponents<'a> {
    fn clone(&self) -> (r: Self)
        ensures
            r == *self,
    {
        proof {
            use_type_invariant(self);
        }
        OIDComponents { slice: self.slice, index: self.index }
    }
}

impl<'a> OIDComponents<'a> {
    #[verifier::type_invariant]
    spec fn valid(&self) -> bool {
        &&& 1 <= self.index <= self.slice@.len()
        &&& is_arcs(self.slice@.skip(self.index as int))
    }

    /// The encodings of the arcs that are still to come, in order.
    pub closed spec fn view(&self) -> Seq<Seq<u8>> {
        arcs(self.slice@.skip(self.index as int))
    }

    /// The next arc, if there is one left.
    pub fn next(&mut self) -> (r: Option<OIDComponent<'a>>)
        ensures
            match r {
                Some(c) => {
                    &&& old(self)@.len() > 0
                    &&& c@ == old(self)@[0]
                    &&& final(self)@ == old(self)@.drop_first()
                },
                None => {
                    &&& old(self)@.len() == 0
                    &&& final(self)@ == old(self)@
                },
            },
    {
        proof {
            use_type_invariant(&*self);
            lemma_arcs_step(self.slice@.skip(self.index as int));
        }
        let bytes = self.slice.as_ref();
        if self.index == bytes.len() {
            None
        } else {
            let rest = &bytes[self.index..bytes.len()];
            match IntegerContBit7::parse_from_slice(rest) {
                // never taken: what is left is a run of canonical integers
                Err(_) => None,
                Ok((r, adv)) => {
                    assert(rest@.skip(adv as int) =~= self.slice@.skip(self.index + adv));
                    self.index += adv;
                    Some(OIDComponent::from_inner_slice(r))
                },
            }
        }
    }
}

/// One arc of an OBJECT IDENTIFIER after the second.
#[derive(Debug, Clone, Copy, PartialEq, Eq, Hash)]
pub struct OIDComponent<'a>(IntegerContBit7<'a>);

impl<'a> OIDComponent<'a> {
    /// The encoded bytes.
    pub closed spec fn view(&self) -> Seq<u8> {
        self.0@
    }

    /// The number of the arc.
    pub open spec fn value(&self) -> nat {
        value_base128(self@)
    }

    /// Take a checked 7-bit integer as an arc.
    pub fn from_inner_slice(slice: IntegerContBit7<'a>) -> (r: Self)
        ensures
            r@ == slice@,
    {
        OIDComponent(slice)
    }

    /// The encoded bytes.
    pub fn as_ref(&self) -> (r: &'a [u8])
        ensures
            r@ == self@,
            is_cont7(r@),
    {
        self.0.as_ref()
    }

    pub fn to_u128(&self) -> (r: Option<u128>)
        ensures
            r.is_some() == (self.value() <= u128::MAX),
            r matches Some(v) ==> v == self.value(),
    {
        self.0.to_u128()
    }

    pub fn to_u64(&self) -> (r: Option<u64>)
        ensures
            r.is_some() == (self.value() <= u64::MAX),
            r matches Some(v) ==> v == self.value(),
    {
        self.0.to_u64()
    }

    pub fn to_u32(&self) -> (r: Option<u32>)
        ensures
            r.is_some() == (self.value() <= u32::MAX),
            r matches Some(v) ==> v == self.value(),
    {
        self.0.to_u32()
    }

    pub fn to_u16(&self) -> (r: Option<u16>)
        ensures
            r.is_some() == (self.value() <= u16::MAX),
            r matches Some(v) ==> v == self.value(),
    {
        self.0.to_u16()
    }

    pub fn to_u8(&self) -> (r: Option<u8>)
        ensures
            r.is_some() == (self.value() <= u8::MAX),
            r matches Some(v) ==> v == self.value(),
    {
        self.0.to_u8()
    }
}

/// An INTEGER, as its canonical bytes.
#[derive(Debug, Clone, Copy, PartialEq, Eq, Hash)]
pub struct Integer<'a>(Integer8Bit<'a>);

impl<'a> Integer<'a> {
    /// The encoded bytes.
    pub closed spec fn view(&self) -> Seq<u8> {
        self.0@
    }

    /// The number that the bytes denote.
    pub open spec fn value(&self) -> nat {
        value_base256(self@)
    }

    /// Take a checked 8-bit integer as an INTEGER.
    pub fn from_inner_slice(slice: Integer8Bit<'a>) -> (r: Self)
        ensures
            r@ == slice@,
    {
        Integer(slice)
    }

    /// The encoded bytes.
    pub fn as_ref(&self) -> (r: &'a [u8])
        ensures
            r@ == self@,
            is_int8(r@),
    {
        self.0.as_ref()
    }

    pub fn to_u128(&self) -> (r: Option<u128>)
        ensures
            r.is_some() == (self.value() <= u128::MAX),
            r matches Some(v) ==> v == self.value(),
    {
        self.0.to_u128()
    }

    pub fn to_u64(&self) -> (r: Option<u64>)
        ensures
            r.is_some() == (self.value() <= u64::MAX),
            r matches Some(v) ==> v == self.value(),
    {
        self.0.to_u64()
    }

    pub fn to_u32(&self) -> (r: Option<u32>)
        ensures
            r.is_some() == (self.value() <= u32::MAX),
            r matches Some(v) ==> v == self.value(),
    {
        self.0.to_u32()
    }

    pub fn to_u16(&self) -> (r: Option<u16>)
        ensures
            r.is_some() == (self.value() <= u16::MAX),
            r matches Some(v) ==> v == self.value(),
    {
        self.0.to_u16()
    }

    pub fn to_u8(&self) -> (r: Option<u8>)
        ensures
            r.is_some() == (self.value() <= u8::MAX),
            r matches Some(v) ==> v == self.value(),
    {
        self.0.to_u8()
    }
}

/// An ENUMERATED, as its canonical bytes.
#[derive(Debug, Clone, Copy, PartialEq, Eq, Hash)]
pub struct Enumerated<'a>(Integer8Bit<'a>);

impl<'a> Enumerated<'a> {
    /// The encoded bytes.
    pub closed spec fn view(&self) -> Seq<u8> {
        self.0@
    }

    /// The number that the bytes denote.
    pub open spec fn value(&self) -> nat {
        value_base256(self@)
    }

    /// Take a checked 8-bit integer as an ENUMERATED.
    pub fn from_inner_slice(slice: Integer8Bit<'a>) -> (r: Self)
        ensures
            r@ == slice@,
    {
        Enumerated(slice)
    }

    /// The encoded bytes.
    pub fn as_ref(&self) -> (r: &'a [u8])
        ensures
            r@ == self@,
            is_int8(r@),
    {
        self.0.as_ref()
    }

    pub fn to_u128(&self) -> (r: Option<u128>)
        ensures
            r.is_some() == (self.value() <= u128::MAX),
            r matches Some(v) ==> v == self.value(),
    {
        self.0.to_u128()
    }

    pub fn to_u64(&self) -> (r: Option<u64>)
        ensures
            r.is_some() == (self.value() <= u64::MAX),
            r matches Some(v) ==> v == self.value(),
    {
        self.0.to_u64()
    }

    pub fn to_u32(&self) -> (r: Option<u32>)
        ensures
            r.is_some() == (self.value() <= u32::MAX),
            r matches Some(v) ==> v == self.value(),
    {
        self.0.to_u32()
    }

    pub fn to_u16(&self) -> (r: Option<u16>)
        ensures
            r.is_some() == (self.value() <= u16::MAX),
            r matches Some(v) ==> v == self.value(),
    {
        self.0.to_u16()
    }

    pub fn to_u8(&self) -> (r: Option<u8>)
        ensures
            r.is_some() == (self.value() <= u8::MAX),
            r matches Some(v) ==> v == self.value(),
    {
        self.0.to_u8()
    }
}

impl<'a> AsRef<[u8]> for BitString<'a> {
    fn as_ref(&self) -> (r: &[u8])
        ensures
            r@ == self@,
    {
        BitString::as_ref(self)
    }
}

impl<'a> AsRef<[u8]> for OID<'a> {
    fn as_ref(&self) -> (r: &[u8])
        ensures
            r@ == self@,
    {
        OID::as_ref(self)
    }
}

impl<'a> AsRef<[u8]> for OIDComponent<'a> {
    fn as_ref(&self) -> (r: &[u8])
        ensures
            r@ == self@,
    {
        OIDComponent::as_ref(self)
    }
}

impl<'a> AsRef<[u8]> for Integer<'a> {
    fn as_ref(&self) -> (r: &[u8])
        ensures
            r@ == self@,
    {
        Integer::as_ref(self)
    }
}

impl<'a> AsRef<[u8]> for Enumerated<'a> {
    fn as_ref(&self) -> (r: &[u8])
        ensures
            r@ == self@,
    {
        Enumerated::as_ref(self)
    }
}

} // verus!
