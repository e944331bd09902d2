//! Integer encodings used in ASN.1
//!
//! * 7-bit limbs, big endian, where the top bit of a byte says that more limbs follow
//! * 8-bit limbs, big endian

use vstd::prelude::*;

verus! {

/// Number denoted by 7-bit limbs, most significant first. The top bit of each
/// byte is ignored.
pub open spec fn value_base128(s: Seq<u8>) -> nat
    decreases s.len(),
{
    if s.len() == 0 {
        0
    } else {
        value_base128(s.drop_last()) * 128 + (s.last() % 128) as nat
    }
}

/// Number denoted by 8-bit limbs, most significant first.
pub open spec fn value_base256(s: Seq<u8>) -> nat
    decreases s.len(),
{
    if s.len() == 0 {
        0
    } else {
        value_base256(s.drop_last()) * 256 + s.last() as nat
    }
}

/// `128` to the power `n`.
pub open spec fn pow128(n: nat) -> nat
    decreases n,
{
    if n == 0 {
        1
    } else {
        128 * pow128((n - 1) as nat)
    }
}

/// `256` to the power `n`.
pub open spec fn pow256(n: nat) -> nat
    decreases n,
{
    if n == 0 {
        1
    } else {
        256 * pow256((n - 1) as nat)
    }
}

/// `k` is the position of the first byte of `s` whose top bit is clear: the
/// last limb of the 7-bit integer that starts at `s[0]`.
pub open spec fn is_final_limb(s: Seq<u8>, k: int) -> bool {
    &&& 0 <= k < s.len()
    &&& s[k] < 0x80
    &&& forall|i: int| 0 <= i < k ==> s[i] >= 0x80
}

/// Some byte of `s` has its top bit clear.
pub open spec fn has_final_limb(s: Seq<u8>) -> bool {
    exists|k: int| is_final_limb(s, k)
}

/// Position of the first byte of `s` whose top bit is clear, where there is one.
pub open spec fn final_limb(s: Seq<u8>) -> int {
    choose|k: int| is_final_limb(s, k)
}

/// Length of the canonical 7-bit integer at the start of `s`: it must not
/// begin with the padding limb `0x80` and must end within `s`.
pub open spec fn cont7_len(s: Seq<u8>) -> Option<int> {
    if s.len() > 0 && s[0] != 0x80 && has_final_limb(s) {
        Some(final_limb(s) + 1)
    } else {
        None
    }
}

/// `s` is exactly one canonical 7-bit integer.
pub open spec fn is_cont7(s: Seq<u8>) -> bool {
    cont7_len(s) == Some(s.len() as int)
}

/// `s` is a canonical 8-bit integer: not empty and without a leading zero byte.
pub open spec fn is_int8(s: Seq<u8>) -> bool {
    s.len() > 0 && s[0] != 0
}

/// The number of 7-bit limbs, at least one, that hold `v`.
pub open spec fn base128_len(v: nat) -> nat
    decreases v,
{
    if v < 128 {
        1
    } else {
        1 + base128_len(v / 128)
    }
}

/// The `n` low limbs of 7 bits of `v`, most significant first, each with the
/// continuation bit set.
pub open spec fn continuation_limbs(v: nat, n: nat) -> Seq<u8>
    decreases n,
{
    if n == 0 {
        Seq::empty()
    } else {
        continuation_limbs(v / 128, (n - 1) as nat).push((128 + v % 128) as u8)
    }
}

/// The canonical 7-bit encoding of `v`: as few limbs as hold it, the
/// continuation bit set on all but the last.
pub open spec fn encode_base128(v: nat) -> Seq<u8> {
    continuation_limbs(v / 128, (base128_len(v) - 1) as nat).push((v % 128) as u8)
}

/// The position of the final limb is unique.
pub proof fn lemma_final_limb_unique(s: Seq<u8>, k: int)
    requires
        is_final_limb(s, k),
    ensures
        has_final_limb(s),
        final_limb(s) == k,
{
}

/// A shorter run of leading limbs never denotes a larger number.
pub proof fn lemma_value_base128_prefix(s: Seq<u8>, i: int)
    requires
        0 <= i <= s.len(),
    ensures
        value_base128(s.take(i)) <= value_base128(s),
    decreases s.len(),
{
    if i == s.len() {
        assert(s.take(i) =~= s);
    } else {
        lemma_value_base128_prefix(s.drop_last(), i);
        assert(s.drop_last().take(i) =~= s.take(i));
    }
}

/// A shorter run of leading limbs never denotes a larger number.
pub proof fn lemma_value_base256_prefix(s: Seq<u8>, i: int)
    requires
        0 <= i <= s.len(),
    ensures
        value_base256(s.take(i)) <= value_base256(s),
    decreases s.len(),
{
    if i == s.len() {
        assert(s.take(i) =~= s);
    } else {
        lemma_value_base256_prefix(s.drop_last(), i);
        assert(s.drop_last().take(i) =~= s.take(i));
    }
}

/// Appending one limb multiplies by the radix and adds the limb.
pub proof fn lemma_value_base128_push(s: Seq<u8>, b: u8)
    ensures
        value_base128(s.push(b)) == value_base128(s) * 128 + (b % 128) as nat,
{
    assert(s.push(b).drop_last() =~= s);
}

/// Appending one limb multiplies by the radix and adds the limb.
pub proof fn lemma_value_base256_push(s: Seq<u8>, b: u8)
    ensures
        value_base256(s.push(b)) == value_base256(s) * 256 + b as nat,
{
    assert(s.push(b).drop_last() =~= s);
}

/// `n` limbs of 8 bits denote a number below `256` to the `n`.
pub proof fn lemma_value_base256_bound(s: Seq<u8>)
    ensures
        value_base256(s) < pow256(s.len()),
    decreases s.len(),
{
    if s.len() > 0 {
        lemma_value_base256_bound(s.drop_last());
    }
}

/// A simple encoded variable size integer where limbs are 7 bits, big endian,
/// and continuation of the encoding is indicated by having the highest bit set.
///
/// A value of this type always holds exactly one canonical integer.
#[derive(Debug, Clone, Copy, PartialEq, Eq, Hash)]
pub struct IntegerContBit7<'a> {
    bytes: &'a [u8],
}

impl<'a> IntegerContBit7<'a> {
    #[verifier::type_invariant]
    spec fn canonical(&self) -> bool {
        is_cont7(self.bytes@)
    }

    /// The encoded bytes.
    pub closed spec fn view(&self) -> Seq<u8> {
        self.bytes@
    }

    /// The number that the limbs denote.
    pub open spec fn value(&self) -> nat {
        value_base128(self@)
    }

    /// Try to parse one integer from the start of a slice.
    ///
    /// On success the integer and the number of bytes it takes are returned.
    /// Parsing fails on an empty slice, on a first byte `0x80` (a limb of
    /// padding, so not canonical), and when the slice ends before a byte
    /// without the continuation bit.
    pub fn parse_from_slice(slice: &'a [u8]) -> (r: Result<(Self, usize), ()>)
        ensures
            match r {
                Ok((v, n)) => {
                    &&& cont7_len(slice@) == Some(n as int)
                    &&& v@ == slice@.take(n as int)
                    &&& is_cont7(v@)
                    &&& 0 < n <= slice@.len()
                },
                Err(_) => cont7_len(slice@) is None,
            },
    {
        if slice.len() == 0 {
            return Err(());
        }
        if slice[0] == 0b1000_0000 {
            return Err(());
        }
        let mut i: usize = 0;
        while (slice[i] & 0b1000_0000) != 0
            invariant
                0 <= i < slice@.len(),
                forall|j: int| 0 <= j < i ==> slice@[j] >= 0x80,
            decreases slice@.len() - i,
        {
            let b = slice[i];
            assert(b & 0x80 != 0 ==> b >= 0x80) by (bit_vector);
            i += 1;
            if i == slice.len() {
                return Err(());
            }
        }
        let b = slice[i];
        assert(b & 0x80 == 0 ==> b < 0x80) by (bit_vector);
        let sub = &slice[0..1 + i];
        proof {
            lemma_final_limb_unique(slice@, i as int);
            lemma_cont7_take(slice@);
        }
        Ok((IntegerContBit7 { bytes: sub }, 1 + i))
    }

    /// The raw bytes of the integer.
    pub fn as_ref(&self) -> (r: &'a [u8])
        ensures
            r@ == self@,
            is_cont7(r@),
    {
        proof {
            use_type_invariant(self);
        }
        self.bytes
    }

    /// Try to convert to the primitive
    ///
    /// If the number does not fit then nothing is returned.
    pub fn to_u128(&self) -> (r: Option<u128>)
        ensures
            r.is_some() == (self.value() <= u128::MAX),
            r matches Some(v) ==> v == self.value(),
    {
        let mut acc: u128 = 0;
        let mut i: usize = 0;
        while i < self.bytes.len()
            invariant
                0 <= i <= self.bytes@.len(),
                acc == value_base128(self.bytes@.take(i as int)),
            decreases self.bytes@.len() - i,
        {
            let b = self.bytes[i];
            let limb = b & 0b0111_1111;
            assert(limb == b % 128) by (bit_vector)
                requires
                    limb == b & 0x7f,
            ;
            proof {
                assert(self.bytes@.take(i + 1) =~= self.bytes@.take(i as int).push(b));
                lemma_value_base128_push(self.bytes@.take(i as int), b);
                lemma_value_base128_prefix(self.bytes@, i + 1);
            }
            assert(u128::MAX >> 7 == 0x01ff_ffff_ffff_ffff_ffff_ffff_ffff_ffffu128) by (bit_vector);
            if acc > (u128::MAX >> 7) {
                return None;
            }
            acc = acc * 128 + limb as u128;
            i += 1;
        }
        assert(self.bytes@.take(i as int) =~= self.bytes@);
        Some(acc)
    }

    /// Try to convert to the primitive
    ///
    /// If the number does not fit then nothing is returned.
    pub fn to_u64(&self) -> (r: Option<u64>)
        ensures
            r.is_some() == (self.value() <= u64::MAX),
            r matches Some(v) ==> v == self.value(),
    {
        match self.to_u128() {
            Some(v) => {
                if v <= u64::MAX as u128 {
                    Some(v as u64)
                } else {
                    None
                }
            },
            None => None,
        }
    }

    /// Try to convert to the primitive
    ///
    /// If the number does not fit then nothing is returned.
    pub fn to_u32(&self) -> (r: Option<u32>)
        ensures
            r.is_some() == (self.value() <= u32::MAX),
            r matches Some(v) ==> v == self.value(),
    {
        match self.to_u128() {
            Some(v) => {
                if v <= u32::MAX as u128 {
                    Some(v as u32)
                } else {
                    None
                }
            },
            None => None,
        }
    }

    /// Try to convert to the primitive
    ///
    /// If the number does not fit then nothing is returned.
    pub fn to_u16(&self) -> (r: Option<u16>)
        ensures
            r.is_some() == (self.value() <= u16::MAX),
            r matches Some(v) ==> v == self.value(),
    {
        match self.to_u128() {
            Some(v) => {
                if v <= u16::MAX as u128 {
                    Some(v as u16)
                } else {
                    None
                }
            },
            None => None,
        }
    }

    /// Try to convert to the primitive
    ///
    /// If the number does not fit then nothing is returned.
    pub fn to_u8(&self) -> (r: Option<u8>)
        ensures
            r.is_some() == (self.value() <= u8::MAX),
            r matches Some(v) ==> v == self.value(),
    {
        match self.to_u128() {
            Some(v) => {
                if v <= u8::MAX as u128 {
                    Some(v as u8)
                } else {
                    None
                }
            },
            None => None,
        }
    }
}

/// An encoded integer where each limb is 8 bits, in big endian.
///
/// A value of this type is never empty and never starts with a zero byte.
#[derive(Debug, Clone, Copy, PartialEq, Eq, Hash)]
pub struct Integer8Bit<'a> {
    bytes: &'a [u8],
}

impl<'a> Integer8Bit<'a> {
    #[verifier::type_invariant]
    spec fn canonical(&self) -> bool {
        is_int8(self.bytes@)
    }

    /// The encoded bytes.
    pub closed spec fn view(&self) -> Seq<u8> {
        self.bytes@
    }

    /// The number that the limbs denote.
    pub open spec fn value(&self) -> nat {
        value_base256(self@)
    }

    /// Try to parse from a slice
    ///
    /// The whole slice is the integer. An empty slice and a slice that starts
    /// with a zero byte are refused.
    pub fn from_slice(slice: &'a [u8]) -> (r: Result<Self, ()>)
        ensures
            r is Ok == is_int8(slice@),
            r matches Ok(v) ==> v@ == slice@,
    {
        if slice.len() == 0 || slice[0] == 0 {
            return Err(());
        }
        Ok(Integer8Bit { bytes: slice })
    }

    /// The raw bytes of the integer.
    pub fn as_ref(&self) -> (r: &'a [u8])
        ensures
            r@ == self@,
            is_int8(r@),
    {
        proof {
            use_type_invariant(self);
        }
        self.bytes
    }

    /// Try to convert to the primitive
    ///
    /// If the number does not fit then nothing is returned.
    pub fn to_u128(&self) -> (r: Option<u128>)
        ensures
            r.is_some() == (self.value() <= u128::MAX),
            r matches Some(v) ==> v == self.value(),
    {
        let mut acc: u128 = 0;
        let mut i: usize = 0;
        while i < self.bytes.len()
            invariant
                0 <= i <= self.bytes@.len(),
                acc == value_base256(self.bytes@.take(i as int)),
            decreases self.bytes@.len() - i,
        {
            let b = self.bytes[i];
            proof {
                assert(self.bytes@.take(i + 1) =~= self.bytes@.take(i as int).push(b));
                lemma_value_base256_push(self.bytes@.take(i as int), b);
                lemma_value_base256_prefix(self.bytes@, i + 1);
            }
            assert(u128::MAX >> 8 == 0x00ff_ffff_ffff_ffff_ffff_ffff_ffff_ffffu128) by (bit_vector);
            if acc > (u128::MAX >> 8) {
                return None;
            }
            acc = acc * 256 + b as u128;
            i += 1;
        }
        assert(self.bytes@.take(i as int) =~= self.bytes@);
        Some(acc)
    }

    /// Try to convert to the primitive
    ///
    /// If the number does not fit then nothing is returned.
    pub fn to_u64(&self) -> (r: Option<u64>)
        ensures
            r.is_some() == (self.value() <= u64::MAX),
            r matches Some(v) ==> v == self.value(),
    {
        match self.to_u128() {
            Some(v) => {
                if v <= u64::MAX as u128 {
                    Some(v as u64)
                } else {
                    None
                }
            },
            None => None,
        }
    }

    /// Try to convert to the primitive
    ///
    /// If the number does not fit then nothing is returned.
    pub fn to_u32(&self) -> (r: Option<u32>)
        ensures
            r.is_some() == (self.value() <= u32::MAX),
            r matches Some(v) ==> v == self.value(),
    {
        match self.to_u128() {
            Some(v) => {
                if v <= u32::MAX as u128 {
                    Some(v as u32)
                } else {
                    None
                }
            },
            None => None,
        }
    }

    /// Try to convert to the primitive
    ///
    /// If the number does not fit then nothing is returned.
    pub fn to_u16(&self) -> (r: Option<u16>)
        ensures
            r.is_some() == (self.value() <= u16::MAX),
            r matches Some(v) ==> v == self.value(),
    {
        match self.to_u128() {
            Some(v) => {
                if v <= u16::MAX as u128 {
                    Some(v as u16)
                } else {
                    None
                }
            },
            None => None,
        }
    }

    /// Try to convert to the primitive
    ///
    /// If the number does not fit then nothing is returned.
    pub fn to_u8(&self) -> (r: Option<u8>)
        ensures
            r.is_some() == (self.value() <= u8::MAX),
            r matches Some(v) ==> v == self.value(),
    {
        match self.to_u128() {
            Some(v) => {
                if v <= u8::MAX as u128 {
                    Some(v as u8)
                } else {
                    None
                }
            },
            None => None,
        }
    }
}

/// The canonical integer at the start of `s` is itself canonical when cut out.
pub proof fn lemma_cont7_take(s: Seq<u8>)
    requires
        cont7_len(s) is Some,
    ensures
        0 < cont7_len(s).unwrap() <= s.len(),
        is_cont7(s.take(cont7_len(s).unwrap())),
{
    lemma_final_limb_unique(s.take(final_limb(s) + 1), final_limb(s));
}

/// `continuation_limbs` gives as many limbs as it is asked for, each with its
/// top bit set.
pub proof fn lemma_continuation_limbs_shape(v: nat, n: nat)
    ensures
        continuation_limbs(v, n).len() == n,
        forall|i: int| 0 <= i < n ==> continuation_limbs(v, n)[i] >= 0x80,
    decreases n,
{
    if n > 0 {
        lemma_continuation_limbs_shape(v / 128, (n - 1) as nat);
    }
}

/// The limbs of a number that fits denote that number.
pub proof fn lemma_continuation_limbs_value(v: nat, n: nat)
    requires
        v < pow128(n),
    ensures
        value_base128(continuation_limbs(v, n)) == v,
    decreases n,
{
    if n > 0 {
        lemma_continuation_limbs_value(v / 128, (n - 1) as nat);
        lemma_value_base128_push(
            continuation_limbs(v / 128, (n - 1) as nat),
            (128 + v % 128) as u8,
        );
    }
}

/// The leading limb of a number that needs all `n` limbs is not padding.
pub proof fn lemma_continuation_limbs_first(v: nat, n: nat)
    requires
        n > 0,
        pow128((n - 1) as nat) <= v < pow128(n),
    ensures
        continuation_limbs(v, n)[0] != 0x80,
    decreases n,
{
    if n > 1 {
        lemma_continuation_limbs_first(v / 128, (n - 1) as nat);
        lemma_continuation_limbs_shape(v / 128, (n - 1) as nat);
    } else {
        assert(continuation_limbs(v / 128, 0).len() == 0);
    }
}

/// A number lies between the powers of 128 that its limb count names.
pub proof fn lemma_base128_len_bounds(v: nat)
    ensures
        v < pow128(base128_len(v)),
        base128_len(v) > 1 ==> v >= pow128((base128_len(v) - 1) as nat),
    decreases v,
{
    reveal_with_fuel(pow128, 2);
    if v >= 128 {
        lemma_base128_len_bounds(v / 128);
    }
}

/// `n` limbs of 7 bits denote a number below `128` to the `n`, and not below
/// `128` to the `n - 1` where the first limb is not zero.
pub proof fn lemma_value_base128_bounds(s: Seq<u8>)
    ensures
        value_base128(s) < pow128(s.len()),
        s.len() > 0 && s[0] % 128 != 0 ==> value_base128(s) >= pow128((s.len() - 1) as nat),
    decreases s.len(),
{
    reveal_with_fuel(pow128, 2);
    if s.len() > 0 {
        lemma_value_base128_bounds(s.drop_last());
    }
}

/// A number between two powers of 128 that follow each other takes as many
/// limbs as the larger power says.
pub proof fn lemma_base128_len_from_bounds(v: nat, n: nat)
    requires
        n >= 1,
        v < pow128(n),
        n > 1 ==> v >= pow128((n - 1) as nat),
    ensures
        base128_len(v) == n,
    decreases n,
{
    reveal_with_fuel(pow128, 3);
    if n > 1 {
        lemma_base128_len_from_bounds(v / 128, (n - 1) as nat);
    }
}

/// Limbs that all have the continuation bit are the limbs of the number that
/// they denote.
pub proof fn lemma_continuation_limbs_of_value(c: Seq<u8>)
    requires
        forall|i: int| 0 <= i < c.len() ==> c[i] >= 0x80,
    ensures
        continuation_limbs(value_base128(c), c.len()) == c,
    decreases c.len(),
{
    if c.len() > 0 {
        lemma_continuation_limbs_of_value(c.drop_last());
    }
}

/// A number has one canonical encoding only: a canonical 7-bit integer is
/// the encoding of the number that it denotes.
pub proof fn lemma_cont7_is_encoding(s: Seq<u8>)
    requires
        is_cont7(s),
    ensures
        encode_base128(value_base128(s)) == s,
{
    lemma_value_base128_bounds(s.drop_last());
    lemma_base128_len_from_bounds(value_base128(s), s.len());
    lemma_continuation_limbs_of_value(s.drop_last());
}

/// The canonical encoding of `v` is one canonical 7-bit integer that denotes
/// `v`, and it is found again at the start of whatever it is followed by.
pub proof fn lemma_encode_base128(v: nat, rest: Seq<u8>)
    ensures
        encode_base128(v).len() == base128_len(v),
        is_cont7(encode_base128(v)),
        value_base128(encode_base128(v)) == v,
        cont7_len(encode_base128(v) + rest) == Some(base128_len(v) as int),
        (encode_base128(v) + rest).take(base128_len(v) as int) == encode_base128(v),
{
    let n = base128_len(v);
    let m = (n - 1) as nat;
    let head = continuation_limbs(v / 128, m);
    let e = encode_base128(v);
    lemma_base128_len_bounds(v);
    lemma_continuation_limbs_shape(v / 128, m);
    assert(v / 128 < pow128(m)) by {
        reveal_with_fuel(pow128, 2);
    }
    lemma_continuation_limbs_value(v / 128, m);
    lemma_value_base128_push(head, (v % 128) as u8);
    if m > 0 {
        assert(pow128((m - 1) as nat) <= v / 128) by {
            reveal_with_fuel(pow128, 2);
        }
        lemma_continuation_limbs_first(v / 128, m);
    }
    lemma_final_limb_unique(e, n - 1);
    let t = e + rest;
    lemma_final_limb_unique(t, n - 1);
}

impl<'a> AsRef<[u8]> for IntegerContBit7<'a> {
    fn as_ref(&self) -> (r: &[u8])
        ensures
            r@ == self@,
    {
        IntegerContBit7::as_ref(self)
    }
}

impl<'a> AsRef<[u8]> for Integer8Bit<'a> {
    fn as_ref(&self) -> (r: &[u8])
        ensures
            r@ == self@,
    {
        Integer8Bit::as_ref(self)
    }
}

} // verus!
