use vstd::prelude::*;
use crate::header::splice;
use crate::intenc::{
    lemma_value_base256_bound, lemma_value_base256_prefix, lemma_value_base256_push, pow256,
    value_base256,
};

verus! {

/// ASN.1 header length has 3 different encodings
///
/// * Short : 1 byte, for any raw length value less than 0x80 bytes
/// * Indefinite : 1 byte, for encoding an unknown length value
/// * Long : 2 to 1+127 bytes, for encoding a length of 0x80 bytes or more
///
/// For long encoding, the maximum allowed length is 32 bits, which results
/// in a maximum size for every given element of 4 GiB.
#[derive(Clone, Copy, Debug, PartialEq, Eq, Structural)]
pub enum Length {
    Short(u8),
    Long { nb_bytes: u8, value: u32 },
    Indefinite,
}

/// Length decoding error
#[derive(Clone, Copy, Debug, PartialEq, Eq, Structural)]
pub enum LengthDecodeError {
    /// The input ends before the length field does
    EncodingIncomplete,
    /// The encoded length does not fit in 32 bits
    EncodingOverflow,
}

/// The `n` low limbs of 8 bits of `v`, most significant first.
pub open spec fn be_limbs(v: nat, n: nat) -> Seq<u8>
    decreases n,
{
    if n == 0 {
        Seq::empty()
    } else {
        be_limbs(v / 256, (n - 1) as nat).push((v % 256) as u8)
    }
}

/// The least number of bytes, at least one, that hold `v`.
pub open spec fn min_bytes(v: nat) -> nat
    decreases v,
{
    if v < 256 {
        1
    } else {
        1 + min_bytes(v / 256)
    }
}

impl Length {
    /// The length can be written: a short length is below `0x80`, and a long
    /// one announces between 1 and 127 bytes.
    pub open spec fn encodable(&self) -> bool {
        match *self {
            Length::Short(v) => v < 0x80,
            Length::Long { nb_bytes, value } => 1 <= nb_bytes < 0x80,
            Length::Indefinite => true,
        }
    }

    /// The length can be written and the bytes it announces hold its value.
    pub open spec fn wf(&self) -> bool {
        &&& self.encodable()
        &&& match *self {
            Length::Long { nb_bytes, value } => value < pow256(nb_bytes as nat),
            _ => true,
        }
    }

    /// The number of payload bytes that the length stands for.
    pub open spec fn spec_value(&self) -> Option<u32> {
        match *self {
            Length::Short(v) => Some(v as u32),
            Length::Long { nb_bytes, value } => Some(value),
            Length::Indefinite => None,
        }
    }

    /// The shortest length field for `v` payload bytes.
    pub open spec fn spec_new_smallest(v: nat) -> Length {
        if v < 0x80 {
            Length::Short(v as u8)
        } else {
            Length::Long { nb_bytes: min_bytes(v) as u8, value: v as u32 }
        }
    }

    /// The number of bytes of the length field.
    pub open spec fn spec_size_bytes(&self) -> nat {
        match *self {
            Length::Indefinite => 1,
            Length::Short(_) => 1,
            Length::Long { nb_bytes, value } => 1 + nb_bytes as nat,
        }
    }

    /// The bytes of the length field.
    pub open spec fn spec_encode(&self) -> Seq<u8> {
        match *self {
            Length::Indefinite => seq![0x80u8],
            Length::Short(v) => seq![v],
            Length::Long { nb_bytes, value } => seq![(0x80 + nb_bytes) as u8] + be_limbs(
                value as nat,
                nb_bytes as nat,
            ),
        }
    }

    /// The length field at the start of `s` and the number of bytes it takes.
    ///
    /// A first byte `0x80` is the indefinite length; a first byte above it
    /// announces that many bytes less `0x80` of big-endian value; a first byte
    /// below it is the length itself.
    pub open spec fn spec_decode(s: Seq<u8>) -> Result<(Length, int), LengthDecodeError> {
        if s.len() == 0 {
            Err(LengthDecodeError::EncodingIncomplete)
        } else if s[0] == 0x80 {
            Ok((Length::Indefinite, 1))
        } else if s[0] > 0x80 {
            let nb_bytes = (s[0] - 0x80) as u8;
            if s.len() < 1 + nb_bytes {
                Err(LengthDecodeError::EncodingIncomplete)
            } else if value_base256(s.subrange(1, 1 + nb_bytes)) > u32::MAX {
                Err(LengthDecodeError::EncodingOverflow)
            } else {
                Ok(
                    (
                        Length::Long {
                            nb_bytes,
                            value: value_base256(s.subrange(1, 1 + nb_bytes)) as u32,
                        },
                        1 + nb_bytes,
                    ),
                )
            }
        } else {
            Ok((Length::Short(s[0]), 1))
        }
    }

    /// The number of payload bytes, unless the length is indefinite.
    pub fn value(&self) -> (r: Option<u32>)
        ensures
            r == self.spec_value(),
    {
        match self {
            Length::Short(sz) => Some(*sz as u32),
            Length::Long { nb_bytes: _, value } => Some(*value),
            Length::Indefinite => None,
        }
    }

    /// The shortest length field for `v` payload bytes: the short form below
    /// `0x80`, else the long form with as few bytes as hold `v`.
    ///
    /// A length field holds at most 32 bits.
    pub fn new_smallest(v: usize) -> (r: Self)
        requires
            v <= u32::MAX,
        ensures
            r == Self::spec_new_smallest(v as nat),
            r.wf(),
            r.spec_value() == Some(v as u32),
    {
        proof {
            reveal_with_fuel(min_bytes, 5);
            reveal_with_fuel(pow256, 5);
        }
        if v < 0x80 {
            Self::Short(v as u8)
        } else {
            let nb_bytes: u8 = if v < 0x100 {
                1
            } else if v < 0x1_0000 {
                2
            } else if v < 0x100_0000 {
                3
            } else {
                4
            };
            Self::Long { nb_bytes, value: v as u32 }
        }
    }

    /// The number of bytes that `encode` writes.
    pub fn size_bytes(&self) -> (r: usize)
        ensures
            r == self.spec_size_bytes(),
            r == self.spec_encode().len(),
    {
        proof {
            self.lemma_encode_size();
        }
        match self {
            Length::Indefinite => 1,
            Length::Short(_) => 1,
            Length::Long { nb_bytes, value: _ } => 1 + *nb_bytes as usize,
        }
    }

    /// Write the length field at the start of `out`. The bytes after it are
    /// left as they are.
    pub fn encode(&self, out: &mut [u8])
        requires
            self.encodable(),
            self.spec_size_bytes() <= old(out)@.len(),
        ensures
            final(out)@ == splice(old(out)@, 0, self.spec_encode()),
    {
        put_length(self, out, 0)
    }

    /// Read the length field at the start of `buf`, with the number of bytes
    /// it takes.
    ///
    /// A long form is taken as it stands, with the number of bytes that it
    /// announces, also where fewer bytes would hold its value. The input is
    /// incomplete where it ends before the announced bytes do, and the length
    /// overflows where its value does not fit in 32 bits.
    pub fn decode(buf: &[u8]) -> (r: Result<(Self, usize), LengthDecodeError>)
        ensures
            match (r, Self::spec_decode(buf@)) {
                (Ok((l, n)), Ok((sl, sn))) => {
                    &&& l == sl
                    &&& n == sn
                    &&& l.wf()
                    &&& n <= buf@.len()
                },
                (Err(e), Err(se)) => e == se,
                _ => false,
            },
    {
        get_length(buf)
    }

    /// The encoding is as long as `size_bytes` says.
    pub proof fn lemma_encode_size(self)
        ensures
            self.spec_encode().len() == self.spec_size_bytes(),
    {
        match self {
            Length::Long { nb_bytes, value } => {
                lemma_be_limbs_len(value as nat, nb_bytes as nat);
            },
            _ => {},
        }
    }

    /// Decoding what was encoded gives the length back, with the number of
    /// bytes that were written, whatever follows the field.
    pub proof fn lemma_decode_encode(self, rest: Seq<u8>)
        requires
            self.wf(),
        ensures
            Self::spec_decode(self.spec_encode() + rest) == Ok::<_, LengthDecodeError>(
                (self, self.spec_size_bytes() as int),
            ),
    {
        match self {
            Length::Long { nb_bytes, value } => {
                lemma_be_limbs_len(value as nat, nb_bytes as nat);
                lemma_be_limbs_value(value as nat, nb_bytes as nat);
                assert((self.spec_encode() + rest).subrange(1, 1 + nb_bytes) =~= be_limbs(
                    value as nat,
                    nb_bytes as nat,
                ));
            },
            _ => {},
        }
    }

    /// A length field that decodes is the encoding of what it decodes to: no
    /// two byte strings denote the same length field.
    pub proof fn lemma_encode_decode(s: Seq<u8>)
        requires
            Self::spec_decode(s) is Ok,
        ensures
            ({
                let (length, n) = Self::spec_decode(s).unwrap();
                length.wf() && 0 < n <= s.len() && length.spec_encode() == s.take(n)
            }),
    {
        match Self::spec_decode(s).unwrap().0 {
            Length::Long { nb_bytes, value } => {
                lemma_value_base256_bound(s.subrange(1, 1 + nb_bytes));
                lemma_be_limbs_of_value(s.subrange(1, 1 + nb_bytes));
            },
            _ => {},
        }
    }

    /// The shortest length field for any number of bytes that fits in 32 bits
    /// decodes to itself.
    pub proof fn lemma_decode_encode_smallest(v: nat, rest: Seq<u8>)
        requires
            v <= u32::MAX,
        ensures
            Self::spec_new_smallest(v).wf(),
            Self::spec_new_smallest(v).spec_value() == Some(v as u32),
            Self::spec_decode(Self::spec_new_smallest(v).spec_encode() + rest) == Ok::<
                _,
                LengthDecodeError,
            >((Self::spec_new_smallest(v), Self::spec_new_smallest(v).spec_size_bytes() as int)),
    {
        reveal_with_fuel(min_bytes, 5);
        reveal_with_fuel(pow256, 5);
        Self::spec_new_smallest(v).lemma_decode_encode(rest);
    }
}

/// `be_limbs` gives as many limbs as it is asked for.
pub proof fn lemma_be_limbs_len(v: nat, n: nat)
    ensures
        be_limbs(v, n).len() == n,
    decreases n,
{
    if n > 0 {
        lemma_be_limbs_len(v / 256, (n - 1) as nat);
    }
}

/// Limbs are the limbs of the number that they denote.
pub proof fn lemma_be_limbs_of_value(t: Seq<u8>)
    ensures
        be_limbs(value_base256(t), t.len()) == t,
    decreases t.len(),
{
    if t.len() > 0 {
        lemma_be_limbs_of_value(t.drop_last());
    }
}

/// The limbs of a number that fits denote that number.
pub proof fn lemma_be_limbs_value(v: nat, n: nat)
    requires
        v < pow256(n),
    ensures
        value_base256(be_limbs(v, n)) == v,
    decreases n,
{
    if n > 0 {
        lemma_be_limbs_value(v / 256, (n - 1) as nat);
        lemma_value_base256_push(be_limbs(v / 256, (n - 1) as nat), (v % 256) as u8);
    }
}

// A first byte of 0x80 is the indefinite length, anything less is a short
// length, and anything above gives the number of bytes that follow.
fn get_length(slice: &[u8]) -> (r: Result<(Length, usize), LengthDecodeError>)
    ensures
        match (r, Length::spec_decode(slice@)) {
            (Ok((l, n)), Ok((sl, sn))) => {
                &&& l == sl
                &&& n == sn
                &&& l.wf()
                &&& n <= slice@.len()
            },
            (Err(e), Err(se)) => e == se,
            _ => false,
        },
{
    if slice.len() == 0 {
        return Err(LengthDecodeError::EncodingIncomplete);
    }
    let f = slice[0];

    if f == 0b1000_0000 {
        Ok((Length::Indefinite, 1))
    } else if (f & 0b1000_0000) != 0 {
        let nb_bytes = f & 0b0111_1111;
        assert(f & 0x80 != 0 ==> f >= 0x80 && f & 0x7f == (f - 0x80) as u8) by (bit_vector);
        assert(f & 0x80 != 0 <==> f >= 0x80) by (bit_vector);

        if slice.len() - 1 < nb_bytes as usize {
            return Err(LengthDecodeError::EncodingIncomplete);
        }
        let total_size = 1 + nb_bytes as usize;
        let ghost limbs = slice@.subrange(1, total_size as int);

        let mut acc: u32 = 0;
        let mut index: usize = 1;
        while index < total_size
            invariant
                1 <= index <= total_size <= slice@.len(),
                slice@[0] > 0x80,
                nb_bytes == (slice@[0] - 0x80) as u8,
                total_size == 1 + nb_bytes,
                limbs == slice@.subrange(1, total_size as int),
                acc == value_base256(limbs.take(index - 1)),
            decreases total_size - index,
        {
            let b: u8 = slice[index];
            proof {
                assert(limbs.take(index as int) =~= limbs.take(index - 1).push(b));
                lemma_value_base256_push(limbs.take(index - 1), b);
                lemma_value_base256_prefix(limbs, index as int);
            }
            assert(u32::MAX >> 8 == 0x00ff_ffffu32) by (bit_vector);
            if acc > (u32::MAX >> 8) {
                return Err(LengthDecodeError::EncodingOverflow);
            }
            acc = acc * 256 + b as u32;
            index += 1;
        }
        proof {
            assert(limbs.take(index - 1) =~= limbs);
            lemma_value_base256_bound(limbs);
        }
        let len = Length::Long { nb_bytes, value: acc };
        Ok((len, total_size))
    } else {
        assert(f & 0x80 == 0 ==> f < 0x80) by (bit_vector);
        Ok((Length::Short(f), 1))
    }
}

// Writes the length field `len` into `out` from position `pos` on.
pub(crate) fn put_length(len: &Length, out: &mut [u8], pos: usize)
    requires
        len.encodable(),
        pos + len.spec_size_bytes() <= old(out)@.len(),
    ensures
        final(out)@ == splice(old(out)@, pos as int, len.spec_encode()),
    no_unwind
{
    match len {
        Length::Indefinite => {
            out[pos] = 0x80;
        },
        Length::Short(v) => {
            out[pos] = *v;
        },
        Length::Long { nb_bytes, value } => {
            let nb_bytes: u8 = *nb_bytes;
            let value: u32 = *value;
            assert(nb_bytes < 0x80 ==> 0x80u8 | nb_bytes == (0x80 + nb_bytes) as u8)
                by (bit_vector);
            out[pos] = 0b1000_0000 | nb_bytes;
            let mut index: usize = pos + 1;
            let mut remaining: u8 = nb_bytes;
            while remaining > 4
                invariant
                    remaining <= nb_bytes < 0x80,
                    remaining >= 4 || remaining == nb_bytes,
                    index == pos + 1 + (nb_bytes - remaining),
                    pos + 1 + nb_bytes <= out@.len(),
                    out@.len() == old(out)@.len(),
                    out@.take(pos as int) == old(out)@.take(pos as int),
                    out@.skip(pos + 1 + nb_bytes) == old(out)@.skip(pos + 1 + nb_bytes),
                    out@[pos as int] == (0x80 + nb_bytes) as u8,
                    out@.subrange(pos + 1, index as int) == be_limbs(
                        0,
                        (nb_bytes - remaining) as nat,
                    ),
                decreases remaining,
            {
                out[index] = 0;
                index += 1;
                remaining -= 1;
            }
            let ghost mut hi: nat = 0;
            while remaining > 0
                invariant
                    remaining <= 4,
                    remaining <= nb_bytes < 0x80,
                    index == pos + 1 + (nb_bytes - remaining),
                    pos + 1 + nb_bytes <= out@.len(),
                    out@.len() == old(out)@.len(),
                    out@.take(pos as int) == old(out)@.take(pos as int),
                    out@.skip(pos + 1 + nb_bytes) == old(out)@.skip(pos + 1 + nb_bytes),
                    out@[pos as int] == (0x80 + nb_bytes) as u8,
                    out@.subrange(pos + 1, index as int) == be_limbs(
                        hi,
                        (nb_bytes - remaining) as nat,
                    ),
                    remaining == 4 ==> hi == 0,
                    remaining < 4 && remaining < nb_bytes ==> hi == value >> (8 * remaining) as u32,
                decreases remaining,
            {
                let shift: u32 = 8 * (remaining as u32 - 1);
                let limb: u32 = value >> shift;
                assert(limb & 0xff == limb % 256) by (bit_vector);
                let byte: u8 = (limb & 0xff) as u8;
                proof {
                    assert(shift == 24 ==> (value >> shift) / 256 == 0) by (bit_vector);
                    assert(shift <= 16 ==> (value >> shift) / 256 == value >> ((shift + 8) as u32))
                        by (bit_vector);
                    assert(be_limbs(limb as nat / 256, (nb_bytes - remaining) as nat) == be_limbs(
                        hi,
                        (nb_bytes - remaining) as nat,
                    ));
                }
                out[index] = byte;
                proof {
                    hi = limb as nat;
                }
                index += 1;
                remaining -= 1;
            }
            proof {
                assert(value >> 0u32 == value) by (bit_vector);
            }
        },
    }
}

} // verus!
