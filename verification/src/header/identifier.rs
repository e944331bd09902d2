use vstd::prelude::*;
use crate::header::splice;
use crate::intenc::{
    base128_len, continuation_limbs, encode_base128, final_limb, has_final_limb, is_final_limb,
    lemma_cont7_is_encoding, lemma_encode_base128, lemma_final_limb_unique,
    lemma_value_base128_prefix, lemma_value_base128_push, value_base128,
};

verus! {

/// Class for encoding
#[derive(Clone, Copy, Debug, PartialEq, Eq, Structural)]
pub enum Class {
    Universal,
    Application,
    Context,
    Private,
}

#[derive(Clone, Copy, Debug, PartialEq, Eq, Structural)]
pub enum PC {
    Constructed,
    Primitive,
}

enum TagType {
    Short(u8),  // u8 < 0x1f
    Long,  // u8 = 0x1f
}

/// A tag number in the form in which it is written: in the five low bits of
/// the first byte, or after it in limbs of 7 bits.
#[derive(Clone, Debug, PartialEq, Eq, Copy, Structural)]
pub enum TagEncoded {
    Short(u8),
    Long(u32),
}

impl TagEncoded {
    /// A short tag lies below `0x1f`, the mark of the long form.
    pub open spec fn wf(&self) -> bool {
        match *self {
            TagEncoded::Short(v) => v < 0x1f,
            TagEncoded::Long(_) => true,
        }
    }

    /// The tag number.
    pub open spec fn spec_value(&self) -> u32 {
        match *self {
            TagEncoded::Short(u) => u as u32,
            TagEncoded::Long(l) => l,
        }
    }

    /// The shortest form for the tag number `v`.
    pub open spec fn spec_new_smallest(v: u32) -> TagEncoded {
        if v < 0x1f {
            TagEncoded::Short(v as u8)
        } else {
            TagEncoded::Long(v)
        }
    }

    /// The tag number.
    pub fn value(self) -> (r: u32)
        ensures
            r == self.spec_value(),
    {
        match self {
            TagEncoded::Short(u) => u as u32,
            TagEncoded::Long(l) => l,
        }
    }

    /// The shortest form for the tag number `v`: short below `0x1f`, else long.
    pub fn new_smallest(v: u32) -> (r: Self)
        ensures
            r == Self::spec_new_smallest(v),
            r.wf(),
            r.spec_value() == v,
    {
        if v < 0x1f {
            TagEncoded::Short(v as u8)
        } else {
            TagEncoded::Long(v)
        }
    }
}

/// The two top bits of the first byte, as a number.
pub open spec fn class_bits(class: Class) -> nat {
    match class {
        Class::Universal => 0,
        Class::Application => 1,
        Class::Context => 2,
        Class::Private => 3,
    }
}

/// The first byte of an identifier: two bits of class, the constructed bit,
/// and five bits of tag.
pub open spec fn first_byte(class: Class, pc: PC, tag: u8) -> u8 {
    (class_bits(class) * 64 + (if pc == PC::Constructed {
        32nat
    } else {
        0nat
    }) + tag) as u8
}

/// The class that a first byte names.
pub open spec fn first_byte_class(hdr: u8) -> Class {
    if hdr / 64 == 0 {
        Class::Universal
    } else if hdr / 64 == 1 {
        Class::Application
    } else if hdr / 64 == 2 {
        Class::Context
    } else {
        Class::Private
    }
}

/// Whether a first byte has the constructed bit.
pub open spec fn first_byte_pc(hdr: u8) -> PC {
    if (hdr / 32) % 2 == 1 {
        PC::Constructed
    } else {
        PC::Primitive
    }
}

/// The tag of the long form at the start of `t`, with the number of bytes it
/// takes.
///
/// The limbs run up to the first byte without the continuation bit. A first
/// limb of padding is refused before anything else; a number that does not
/// fit in 32 bits is refused wherever the limbs end; and limbs that fit but
/// do not end are incomplete.
pub open spec fn spec_decode_long_tag(t: Seq<u8>) -> Result<(u32, int), DecodeError> {
    if t.len() == 0 {
        Err(DecodeError::TagEncodingIncomplete)
    } else if t[0] == 0x80 {
        Err(DecodeError::TagEncodingNonCanonical)
    } else {
        let scanned = if has_final_limb(t) {
            final_limb(t) + 1
        } else {
            t.len() as int
        };
        let v = value_base128(t.take(scanned));
        if v > u32::MAX {
            Err(DecodeError::TagEncodingOverflow)
        } else if !has_final_limb(t) {
            Err(DecodeError::TagEncodingIncomplete)
        } else {
            Ok((v as u32, scanned))
        }
    }
}

/// decode the first byte in the following format:
///
/// CL CL CON T T T T T
fn decode_first_byte(hdr: u8) -> (r: (Class, PC, TagType))
    ensures
        r.0 == first_byte_class(hdr),
        r.1 == first_byte_pc(hdr),
        match r.2 {
            TagType::Short(tag) => tag == hdr % 32 && tag < 0x1f,
            TagType::Long => hdr % 32 == 0x1f,
        },
{
    assert(hdr >> 6 == hdr / 64 && hdr & 0x1f == hdr % 32 && ((hdr & 0x20) != 0 <==> (hdr / 32) % 2
        == 1)) by (bit_vector);
    let top = hdr >> 6;
    let class = if top == 0b00 {
        Class::Universal
    } else if top == 0b01 {
        Class::Application
    } else if top == 0b10 {
        Class::Context
    } else {
        Class::Private
    };
    let constructed = if (hdr & 0b0010_0000) != 0 {
        PC::Constructed
    } else {
        PC::Primitive
    };
    let tag = hdr & 0b1_1111;
    let tagtype = if tag == 0b1_1111 {
        TagType::Long
    } else {
        TagType::Short(tag)
    };
    (class, constructed, tagtype)
}

fn encode_first_byte(class: Class, constructed: PC, tagtype: TagType) -> (r: u8)
    requires
        tagtype matches TagType::Short(v) ==> v < 0x1f,
    ensures
        r == first_byte(
            class,
            constructed,
            match tagtype {
                TagType::Short(v) => v,
                TagType::Long => 0x1f,
            },
        ),
    no_unwind
{
    let e1: u8 = match class {
        Class::Universal => 0b00,
        Class::Application => 0b01,
        Class::Context => 0b10,
        Class::Private => 0b11,
    };
    let e2: u8 = if constructed == PC::Constructed {
        0b0010_0000
    } else {
        0
    };
    let e3: u8 = match tagtype {
        TagType::Short(v) => v,
        TagType::Long => 0b1_1111,
    };
    assert(e1 <= 3 && (e2 == 0 || e2 == 32) && e3 < 32 ==> (e1 << 6 | e2 | e3) == e1 * 64 + e2
        + e3) by (bit_vector);
    e1 << 6 | e2 | e3
}

/// ASN.1 BER/CER/DER Identifier
///
/// The header consist of the ASN.1 class,
/// the Primitive/Construction boolean, and the tag
#[derive(Debug, Clone, Copy, PartialEq, Eq, Structural)]
pub struct Identifier {
    pub class: Class,
    pub pc: PC,
    pub tag: TagEncoded,
}

#[derive(Debug, Clone, Copy, PartialEq, Eq, Structural)]
pub enum DecodeError {
    /// There is no byte to read
    EmptyHeader,
    /// The input ends before the limbs of a long tag do
    TagEncodingIncomplete,
    /// A long tag does not fit in 32 bits
    TagEncodingOverflow,
    /// A long tag starts with a limb of padding
    TagEncodingNonCanonical,
}

#[derive(Debug, Clone, Copy)]
pub struct OutputBufferTooSmall;

impl Identifier {
    /// The tag is in a form that can be written.
    pub open spec fn wf(&self) -> bool {
        self.tag.wf()
    }

    /// The number of bytes of the identifier.
    pub open spec fn spec_size_bytes(&self) -> nat {
        match self.tag {
            TagEncoded::Long(v) => 1 + base128_len(v as nat),
            TagEncoded::Short(_) => 1,
        }
    }

    /// The bytes of the identifier.
    pub open spec fn spec_encode(&self) -> Seq<u8> {
        match self.tag {
            TagEncoded::Short(v) => seq![first_byte(self.class, self.pc, v)],
            TagEncoded::Long(v) => seq![first_byte(self.class, self.pc, 0x1f)] + encode_base128(
                v as nat,
            ),
        }
    }

    /// The identifier at the start of `s` and the number of bytes it takes.
    pub open spec fn spec_decode(s: Seq<u8>) -> Result<(Identifier, int), DecodeError> {
        if s.len() == 0 {
            Err(DecodeError::EmptyHeader)
        } else {
            let class = first_byte_class(s[0]);
            let pc = first_byte_pc(s[0]);
            if s[0] % 32 != 0x1f {
                Ok((Identifier { class, pc, tag: TagEncoded::Short(s[0] % 32) }, 1))
            } else {
                match spec_decode_long_tag(s.skip(1)) {
                    Ok((v, n)) => Ok((Identifier { class, pc, tag: TagEncoded::Long(v) }, 1 + n)),
                    Err(e) => Err(e),
                }
            }
        }
    }

    /// Read the identifier at the start of `slice`, with the number of bytes
    /// it takes.
    ///
    /// A first byte whose five low bits are all set announces a long tag in
    /// limbs of 7 bits, which must not start with a limb of padding and must
    /// fit in 32 bits.
    pub fn decode(slice: &[u8]) -> (r: Result<(Self, usize), DecodeError>)
        ensures
            match (r, Self::spec_decode(slice@)) {
                (Ok((id, n)), Ok((sid, sn))) => {
                    &&& id == sid
                    &&& n == sn
                    &&& id.wf()
                    &&& n <= slice@.len()
                },
                (Err(e), Err(se)) => e == se,
                _ => false,
            },
    {
        if slice.len() == 0 {
            return Err(DecodeError::EmptyHeader);
        }
        let (class, pc, tagtype) = decode_first_byte(slice[0]);
        let mut index: usize = 1;

        let tag = match tagtype {
            TagType::Short(tag) => TagEncoded::Short(tag),
            TagType::Long => {
                match get_taglong(slice, &mut index) {
                    Ok(v) => TagEncoded::Long(v),
                    Err(e) => {
                        return Err(e);
                    },
                }
            },
        };

        Ok((Identifier { class, pc, tag }, index))
    }

    /// Write the identifier at the start of `out` and return the number of
    /// bytes written. The bytes after it are left as they are.
    pub fn encode(&self, out: &mut [u8]) -> (n: usize)
        requires
            self.wf(),
            self.spec_size_bytes() <= old(out)@.len(),
        ensures
            n == self.spec_size_bytes(),
            n == self.spec_encode().len(),
            final(out)@ == splice(old(out)@, 0, self.spec_encode()),
    {
        put_identifier(self, out, 0)
    }

    /// The number of bytes that `encode` writes.
    pub fn size_bytes(&self) -> (r: usize)
        ensures
            r == self.spec_size_bytes(),
            r == self.spec_encode().len(),
            1 <= r <= 6,
    {
        proof {
            self.lemma_encode_size();
        }
        match self.tag {
            TagEncoded::Long(v) => 1 + size_7bit(v),
            TagEncoded::Short(_) => 1,
        }
    }

    /// The encoding is as long as `size_bytes` says.
    pub proof fn lemma_encode_size(self)
        ensures
            self.spec_encode().len() == self.spec_size_bytes(),
    {
        match self.tag {
            TagEncoded::Long(v) => {
                lemma_encode_base128(v as nat, Seq::empty());
            },
            _ => {},
        }
    }

    /// Decoding what was encoded gives the identifier back, with the number
    /// of bytes that were written, whatever follows them.
    pub proof fn lemma_decode_encode(self, rest: Seq<u8>)
        requires
            self.wf(),
        ensures
            Self::spec_decode(self.spec_encode() + rest) == Ok::<_, DecodeError>(
                (self, self.spec_size_bytes() as int),
            ),
    {
        match self.tag {
            TagEncoded::Short(v) => {},
            TagEncoded::Long(v) => {
                lemma_encode_base128(v as nat, rest);
                assert((self.spec_encode() + rest).skip(1) =~= encode_base128(v as nat) + rest);
            },
        }
    }

    /// An identifier that decodes is the encoding of what it decodes to: no
    /// two byte strings denote the same identifier.
    pub proof fn lemma_encode_decode(s: Seq<u8>)
        requires
            Self::spec_decode(s) is Ok,
        ensures
            ({
                let (identifier, n) = Self::spec_decode(s).unwrap();
                identifier.wf() && 0 < n <= s.len() && identifier.spec_encode() == s.take(n)
            }),
    {
        if s[0] % 32 == 0x1f {
            let limbs = s.skip(1).take(final_limb(s.skip(1)) + 1);
            lemma_final_limb_unique(limbs, final_limb(s.skip(1)));
            lemma_cont7_is_encoding(limbs);
        }
    }
}

fn get_taglong(slice: &[u8], index: &mut usize) -> (r: Result<u32, DecodeError>)
    requires
        *old(index) <= slice@.len(),
    ensures
        match (r, spec_decode_long_tag(slice@.skip(*old(index) as int))) {
            (Ok(v), Ok((sv, n))) => v == sv && *final(index) == *old(index) + n && *final(index)
                <= slice@.len(),
            (Err(e), Err(se)) => e == se,
            _ => false,
        },
{
    let start: usize = *index;
    let ghost t = slice@.skip(start as int);
    let mut acc: u32 = 0u32;
    let mut first_byte = true;
    loop
        invariant
            start == *old(index),
            start <= *index <= slice@.len(),
            t == slice@.skip(start as int),
            acc == value_base128(t.take(*index - start)),
            forall|j: int| 0 <= j < *index - start ==> t[j] >= 0x80,
            first_byte == (*index == start),
            *index > start ==> t[0] != 0x80,
        decreases slice@.len() - *index,
    {
        let ghost j = *index - start;
        if *index >= slice.len() {
            return Err(DecodeError::TagEncodingIncomplete);
        }
        let byte: u8 = slice[*index];
        *index += 1;
        assert(u32::MAX >> 7 == 0x01ff_ffffu32) by (bit_vector);
        assert((byte & 0x80 != 0 <==> byte >= 0x80) && byte & 0x7f == byte % 128) by (bit_vector);
        proof {
            assert(t.take(j + 1) =~= t.take(j).push(byte));
            lemma_value_base128_push(t.take(j), byte);
        }
        if (byte & 0b1000_0000) != 0 {
            let cbyte = byte & 0b0111_1111;

            if first_byte && cbyte == 0 {
                return Err(DecodeError::TagEncodingNonCanonical);
            }
            first_byte = false;

            if acc > (u32::MAX >> 7) {
                proof {
                    let scanned = if has_final_limb(t) {
                        final_limb(t) + 1
                    } else {
                        t.len() as int
                    };
                    lemma_value_base128_prefix(t.take(scanned), j + 1);
                    assert(t.take(scanned).take(j + 1) =~= t.take(j + 1));
                }
                return Err(DecodeError::TagEncodingOverflow);
            }
            acc = acc * 128 + cbyte as u32;
        } else {
            proof {
                lemma_final_limb_unique(t, j);
            }
            if acc > (u32::MAX >> 7) {
                return Err(DecodeError::TagEncodingOverflow);
            }
            acc = acc * 128 + byte as u32;
            return Ok(acc);
        }
    }
}

fn size_7bit(v: u32) -> (nb_bytes: usize)
    ensures
        nb_bytes == base128_len(v as nat),
        1 <= nb_bytes <= 5,
    no_unwind
{
    let mut v: u32 = v;
    let ghost whole = v;
    let mut nb_bytes: usize = 1;
    while v >= 0x80
        invariant
            base128_len(whole as nat) == nb_bytes - 1 + base128_len(v as nat),
            nb_bytes == 1 || (nb_bytes == 2 && v < 0x200_0000) || (nb_bytes == 3 && v < 0x4_0000)
                || (nb_bytes == 4 && v < 0x800) || (nb_bytes == 5 && v < 0x10),
        decreases v,
    {
        assert(v >> 7 == v / 128) by (bit_vector);
        v >>= 7;
        nb_bytes += 1;
    }
    nb_bytes
}

// Writes the identifier `id` into `out` from position `pos` on, and returns
// the number of bytes written.
pub(crate) fn put_identifier(id: &Identifier, out: &mut [u8], pos: usize) -> (n: usize)
    requires
        id.wf(),
        pos + id.spec_size_bytes() <= old(out)@.len(),
    ensures
        n == id.spec_size_bytes(),
        n == id.spec_encode().len(),
        final(out)@ == splice(old(out)@, pos as int, id.spec_encode()),
    no_unwind
{
    let tagtype = match id.tag {
        TagEncoded::Short(v) => TagType::Short(v),
        TagEncoded::Long(_) => TagType::Long,
    };
    let x = encode_first_byte(id.class, id.pc, tagtype);

    out[pos] = x;
    let mut index: usize = pos + 1;

    match id.tag {
        TagEncoded::Short(_) => {},
        TagEncoded::Long(b) => {
            let nb_bytes = size_7bit(b);
            let ghost mut hi: nat = 0;
            let mut i: usize = 0;
            while i < nb_bytes
                invariant
                    i <= nb_bytes <= 5,
                    nb_bytes == base128_len(b as nat),
                    index == pos + 1 + i,
                    pos + 1 + nb_bytes <= out@.len(),
                    out@.len() == old(out)@.len(),
                    out@.take(pos as int) == old(out)@.take(pos as int),
                    out@.skip(pos + 1 + nb_bytes) == old(out)@.skip(pos + 1 + nb_bytes),
                    out@[pos as int] == x,
                    i < nb_bytes ==> out@.subrange(pos + 1, index as int) == continuation_limbs(
                        hi,
                        i as nat,
                    ),
                    0 < i < nb_bytes ==> hi == b >> (7 * (nb_bytes - i)) as u32,
                    i == nb_bytes ==> out@.subrange(pos + 1, index as int) == encode_base128(
                        b as nat,
                    ),
                decreases nb_bytes - i,
            {
                let shifter: u32 = 7 * (nb_bytes - 1 - i) as u32;
                let limb: u32 = b >> shifter;
                assert(limb & 0x7f == limb % 128 && limb & 0x7f < 128) by (bit_vector);
                let v: u8 = (limb & 0x7f) as u8;
                assert(v < 128 ==> v | 0x80 == 128 + v) by (bit_vector);
                proof {
                    assert(shifter <= 21 ==> (b >> shifter) / 128 == b >> ((shifter + 7) as u32))
                        by (bit_vector);
                    assert(b >> 0u32 == b) by (bit_vector);
                    assert(continuation_limbs(limb as nat / 128, i as nat) == continuation_limbs(
                        hi,
                        i as nat,
                    ));
                }
                if i == nb_bytes - 1 {
                    out[index] = v;
                } else {
                    out[index] = v | 0x80;
                }
                proof {
                    hi = limb as nat;
                }
                index += 1;
                i += 1;
            }
            proof {
                lemma_encode_base128(b as nat, Seq::empty());
            }
        },
    };
    index - pos
}

} // verus!
