use vstd::prelude::*;
use vstd::string::StringSliceAdditionalSpecFns;
use crate::header::constants::{
    TAG_BIT_STRING, TAG_BOOLEAN, TAG_ENUMERATED, TAG_INTEGER, TAG_NULL, TAG_OCTET_STRING,
    TAG_SEQUENCE, TAG_UTF8_STRING,
};
use crate::header::identifier::put_identifier;
use crate::header::length::put_length;
use crate::header::{Class, Identifier, Length, TagEncoded, PC};
use crate::objects::{BitString, Enumerated, Integer};

verus! {

/// ASN.1 DER Writer into a buffer that the user supplies
///
/// The writer is a cursor over a buffer that it does not own. A write that
/// succeeds appends one element to what was written; a write that fails
/// leaves what was written as it was.
pub struct Writer<'a> {
    index: usize,
    buf: &'a mut [u8],
}

#[derive(Debug, Clone, Copy, PartialEq, Eq, Structural)]
pub enum Error {
    /// The buffer, whose size is given, has no room for the element
    BufferTooSmall(usize),
    /// The payload, whose size is given, is longer than a length field can say
    LengthTooLarge(usize),
}

/// The identifier of the universal class for a tag number, in its shortest
/// form.
pub open spec fn universal(pc: PC, tag: u32) -> Identifier {
    Identifier { class: Class::Universal, pc, tag: TagEncoded::spec_new_smallest(tag) }
}

/// An element: the identifier, the shortest length field for the payload,
/// and the payload.
pub open spec fn spec_tlv(identifier: Identifier, payload: Seq<u8>) -> Seq<u8> {
    identifier.spec_encode() + Length::spec_new_smallest(payload.len()).spec_encode() + payload
}

/// A primitive element of the universal class.
pub open spec fn spec_primitive(tag: u32, payload: Seq<u8>) -> Seq<u8> {
    spec_tlv(universal(PC::Primitive, tag), payload)
}

/// A SEQUENCE with the given content.
pub open spec fn spec_sequence(content: Seq<u8>) -> Seq<u8> {
    spec_tlv(universal(PC::Constructed, TAG_SEQUENCE), content)
}

/// What closing a SEQUENCE makes of what was written.
///
/// The SEQUENCE was opened at `start`, with one byte of identifier and one
/// byte kept for the length, and `inner` is how writing the content ended.
/// The length field takes its shortest form, so content of `0x80` bytes or
/// more moves forward to make room for it.
pub open spec fn spec_close_sequence(
    written: Seq<u8>,
    capacity: nat,
    start: int,
    inner: Result<(), Error>,
) -> Result<Seq<u8>, Error> {
    let content = written.skip(start + 2);
    let length = Length::spec_new_smallest(content.len());
    match inner {
        Err(e) => Err(e),
        Ok(_) => if content.len() > u32::MAX {
            Err(Error::LengthTooLarge(content.len() as usize))
        } else if start + 1 + length.spec_size_bytes() + content.len() > capacity {
            Err(Error::BufferTooSmall(capacity as usize))
        } else {
            Ok(written.take(start + 1) + length.spec_encode() + content)
        },
    }
}

impl<'a> Writer<'a> {
    #[verifier::type_invariant]
    spec fn within(&self) -> bool {
        self.index <= self.buf@.len()
    }

    /// All the bytes of the buffer.
    pub closed spec fn buffer(&self) -> Seq<u8> {
        self.buf@
    }

    /// The number of bytes that were written.
    pub closed spec fn position(&self) -> nat {
        self.index as nat
    }

    /// The bytes that were written.
    pub open spec fn view(&self) -> Seq<u8> {
        self.buffer().take(self.position() as int)
    }

    /// The size of the buffer.
    pub open spec fn capacity(&self) -> nat {
        self.buffer().len()
    }

    /// Nothing of the buffer differs from `before`, and nothing more is
    /// written.
    pub open spec fn unchanged(&self, before: &Self) -> bool {
        &&& self.buffer() == before.buffer()
        &&& self.position() == before.position()
    }

    /// The writer is `before` after an attempt to append `data`, which ended
    /// in `r`: the attempt succeeds exactly when the data fits, and leaves
    /// everything as it was when it does not.
    pub open spec fn appended(&self, before: &Self, r: Result<(), Error>, data: Seq<u8>) -> bool {
        &&& self.capacity() == before.capacity()
        &&& self@.len() <= self.capacity()
        &&& if before@.len() + data.len() > before.capacity() {
            r == Err::<(), _>(Error::BufferTooSmall(before.capacity() as usize)) && self.unchanged(
                before,
            )
        } else {
            r == Ok::<(), Error>(()) && self@ == before@ + data
        }
    }

    /// The writer is `before` after an attempt to write the primitive
    /// element with the given tag and payload, which ended in `r`.
    ///
    /// A payload longer than a length field can say is refused; then the
    /// element is appended if it fits.
    pub open spec fn wrote(
        &self,
        before: &Self,
        r: Result<(), Error>,
        tag: u32,
        payload: Seq<u8>,
    ) -> bool {
        if payload.len() > u32::MAX {
            &&& r == Err::<(), _>(Error::LengthTooLarge(payload.len() as usize))
            &&& self.unchanged(before)
        } else {
            self.appended(before, r, spec_primitive(tag, payload))
        }
    }

    /// create a new DER writer, with the buffer as the user allocated write buffer
    pub fn new(buf: &'a mut [u8]) -> (w: Self)
        ensures
            w.buffer() == old(buf)@,
            w.position() == 0,
            w@ == Seq::<u8>::empty(),
            w.capacity() == old(buf)@.len(),
    {
        Writer { index: 0, buf }
    }

    fn check_length(&self, sz: usize) -> (r: Result<(), Error>)
        ensures
            r == if self@.len() + sz > self.capacity() {
                Err::<(), _>(Error::BufferTooSmall(self.capacity() as usize))
            } else {
                Ok::<(), Error>(())
            },
            self@.len() <= self.capacity() <= usize::MAX,
    {
        proof {
            use_type_invariant(self);
        }
        if sz > self.buf.len() - self.index {
            return Err(Error::BufferTooSmall(self.buf.len()));
        }
        Ok(())
    }

    fn identifier(&mut self, identifier: &Identifier) -> (r: Result<(), Error>)
        requires
            identifier.wf(),
        ensures
            final(self).appended(old(self), r, identifier.spec_encode()),
    {
        proof {
            use_type_invariant(&*self);
        }
        let sz = identifier.size_bytes();
        self.check_length(sz)?;
        let sz2 = put_identifier(identifier, self.buf, self.index);
        self.index += sz;
        assert(self@ =~= old(self)@ + identifier.spec_encode());
        Ok(())
    }

    fn length(&mut self, length: Length) -> (r: Result<(), Error>)
        requires
            length.encodable(),
        ensures
            final(self).appended(old(self), r, length.spec_encode()),
    {
        proof {
            use_type_invariant(&*self);
        }
        let sz = length.size_bytes();
        self.check_length(sz)?;
        put_length(&length, self.buf, self.index);
        self.index += sz;
        assert(self@ =~= old(self)@ + length.spec_encode());
        Ok(())
    }

    fn prim_identifier(&mut self, tag: u32) -> (r: Result<(), Error>)
        ensures
            final(self).appended(old(self), r, universal(PC::Primitive, tag).spec_encode()),
    {
        let ident = Identifier {
            pc: PC::Primitive,
            class: Class::Universal,
            tag: TagEncoded::new_smallest(tag),
        };
        self.identifier(&ident)
    }

    fn constructed_identifier(&mut self, tag: u32) -> (r: Result<(), Error>)
        ensures
            final(self).appended(old(self), r, universal(PC::Constructed, tag).spec_encode()),
    {
        let ident = Identifier {
            pc: PC::Constructed,
            class: Class::Universal,
            tag: TagEncoded::new_smallest(tag),
        };
        self.identifier(&ident)
    }

    // Writes the length of `data` and then `data`, or nothing.
    fn copy_data(&mut self, data: &[u8]) -> (r: Result<(), Error>)
        requires
            data@.len() <= u32::MAX,
        ensures
            final(self).appended(
                old(self),
                r,
                Length::spec_new_smallest(data@.len()).spec_encode() + data@,
            ),
    {
        proof {
            use_type_invariant(&*self);
        }
        let length = Length::new_smallest(data.len());
        let room = self.buf.len() - self.index;
        if data.len() > room || length.size_bytes() > room - data.len() {
            return Err(Error::BufferTooSmall(self.buf.len()));
        }
        self.length(length)?;
        self.check_length(data.len())?;
        proof {
            use_type_invariant(&*self);
        }
        let ghost before = self.buf@;
        let n = data.len();
        let base = self.index;
        let mut i: usize = 0;
        while i < n
            invariant
                i <= n == data@.len(),
                self.index == base,
                base + n <= self.buf@.len() == before.len() <= usize::MAX,
                forall|k: int| 0 <= k < base ==> self.buf@[k] == before[k],
                forall|k: int| 0 <= k < i ==> self.buf@[base + k] == data@[k],
            decreases n - i,
        {
            self.buf[base + i] = data[i];
            i += 1;
        }
        self.index += n;
        proof {
            assert(self.buf@.take(base as int) =~= before.take(base as int));
            assert(self@ =~= old(self)@ + (length.spec_encode() + data@));
        }
        Ok(())
    }

    // Writes the primitive element with the given tag and payload, or nothing.
    fn primitive(&mut self, tag: u32, data: &[u8]) -> (r: Result<(), Error>)
        ensures
            final(self).wrote(old(self), r, tag, data@),
    {
        proof {
            use_type_invariant(&*self);
        }
        if data.len() > u32::MAX as usize {
            return Err(Error::LengthTooLarge(data.len()));
        }
        let ident = Identifier {
            pc: PC::Primitive,
            class: Class::Universal,
            tag: TagEncoded::new_smallest(tag),
        };
        let header = ident.size_bytes() + Length::new_smallest(data.len()).size_bytes();
        let room = self.buf.len() - self.index;
        if data.len() > room || header > room - data.len() {
            return Err(Error::BufferTooSmall(self.buf.len()));
        }
        self.prim_identifier(tag)?;
        let r = self.copy_data(data);
        assert(r is Ok ==> self@ =~= old(self)@ + spec_primitive(tag, data@));
        r
    }

    /// Write a boolean to the DER writer
    pub fn bool(&mut self, b: bool) -> (r: Result<(), Error>)
        ensures
            final(self).wrote(
                old(self),
                r,
                TAG_BOOLEAN,
                seq![if b {
                    0xffu8
                } else {
                    0u8
                }],
            ),
    {
        let v: [u8; 1] = if b {
            [0xff]
        } else {
            [0]
        };
        let data = v.as_slice();
        assert(data@ =~= seq![if b {
            0xffu8
        } else {
            0u8
        }]);
        self.primitive(TAG_BOOLEAN, data)
    }

    /// Write an Integer to the DER writer
    pub fn integer<'b>(&mut self, integer: &Integer<'b>) -> (r: Result<(), Error>)
        ensures
            final(self).wrote(old(self), r, TAG_INTEGER, integer@),
    {
        self.primitive(TAG_INTEGER, integer.as_ref())
    }

    /// Write an Enumerated to the DER writer
    pub fn enumerated<'b>(&mut self, enumerated: &Enumerated<'b>) -> (r: Result<(), Error>)
        ensures
            final(self).wrote(old(self), r, TAG_ENUMERATED, enumerated@),
    {
        self.primitive(TAG_ENUMERATED, enumerated.as_ref())
    }

    /// Write a bitstring to the DER writer
    pub fn bitstring<'b>(&mut self, obj: &BitString<'b>) -> (r: Result<(), Error>)
        ensures
            final(self).wrote(old(self), r, TAG_BIT_STRING, obj@),
    {
        self.primitive(TAG_BIT_STRING, obj.as_ref())
    }

    /// Write a octetstring to the DER writer
    pub fn octetstring<'b>(&mut self, obj: &'b [u8]) -> (r: Result<(), Error>)
        ensures
            final(self).wrote(old(self), r, TAG_OCTET_STRING, obj@),
    {
        self.primitive(TAG_OCTET_STRING, obj)
    }

    /// Write a null to the DER writer
    pub fn null(&mut self) -> (r: Result<(), Error>)
        ensures
            final(self).wrote(old(self), r, TAG_NULL, Seq::<u8>::empty()),
    {
        let v: [u8; 0] = [];
        let data = v.as_slice();
        self.primitive(TAG_NULL, data)
    }

    /// Write a utf8 string to the DER writer
    pub fn utf8_string<'b>(&mut self, str: &'b str) -> (r: Result<(), Error>)
        ensures
            final(self).wrote(old(self), r, TAG_UTF8_STRING, str.spec_bytes()),
    {
        let bytes = str.as_bytes();
        self.primitive(TAG_UTF8_STRING, bytes)
    }

    /// Open a SEQUENCE: write its identifier and keep one byte for its
    /// length. The position at which the SEQUENCE starts is returned, for
    /// `close_sequence`.
    pub fn open_sequence(&mut self) -> (r: Result<usize, Error>)
        ensures
            final(self).appended(
                old(self),
                match r {
                    Ok(_) => Ok::<(), Error>(()),
                    Err(e) => Err::<(), _>(e),
                },
                seq![0x30u8, 0x00u8],
            ),
            r matches Ok(start) ==> start == old(self)@.len(),
    {
        proof {
            use_type_invariant(&*self);
        }
        let start = self.index;
        if self.buf.len() - self.index < 2 {
            return Err(Error::BufferTooSmall(self.buf.len()));
        }
        self.constructed_identifier(TAG_SEQUENCE)?;
        self.length(Length::Short(0))?;
        assert(self@ =~= old(self)@ + seq![0x30u8, 0x00u8]);
        Ok(start)
    }

    /// Close the SEQUENCE that was opened at `start`, after its content was
    /// written with the result `inner`.
    ///
    /// Where the content was written, its length is filled in: in the byte
    /// that was kept for it where that is enough, and else after the content
    /// has moved forward by as many bytes as the length field needs more.
    /// Where the content failed, or its length cannot be said, or the buffer
    /// has no room for the move, the SEQUENCE is given up.
    pub fn close_sequence(&mut self, start: usize, inner: Result<(), Error>) -> (r: Result<
        (),
        Error,
    >)
        requires
            start + 2 <= old(self)@.len(),
        ensures
            final(self).capacity() == old(self).capacity(),
            final(self)@.len() <= final(self).capacity(),
            match spec_close_sequence(old(self)@, old(self).capacity(), start as int, inner) {
                Ok(written) => r == Ok::<(), Error>(()) && final(self)@ == written,
                Err(e) => r == Err::<(), _>(e) && final(self)@ == old(self)@.take(start as int),
            },
    {
        proof {
            use_type_invariant(&*self);
        }
        let position_length = start + 1;
        let position_data = start + 2;
        match inner {
            Err(e) => {
                self.index = start;
                return Err(e);
            },
            Ok(_) => {},
        }
        let diff = self.index - position_data;
        if diff < 0x80 {
            // can reuse the same length bytes position
            let actual_length = Length::Short(diff as u8);
            put_length(&actual_length, self.buf, position_length);
        } else {
            if diff > u32::MAX as usize {
                self.index = start;
                return Err(Error::LengthTooLarge(diff));
            }
            // need to move data by couple of bytes to be able
            // to write the new length
            let actual_length = Length::new_smallest(diff);
            let move_forward = actual_length.size_bytes() - 1;
            if move_forward > self.buf.len() - self.index {
                let capacity = self.buf.len();
                self.index = start;
                return Err(Error::BufferTooSmall(capacity));
            }
            let ghost before = self.buf@;
            let end = self.index;
            let mut i: usize = diff;
            while i > 0
                invariant
                    i <= diff,
                    0 < move_forward,
                    self.index == end == position_data + diff,
                    end + move_forward <= self.buf@.len() == before.len(),
                    forall|k: int|
                        0 <= k < position_data + move_forward + i ==> self.buf@[k] == before[k],
                    forall|k: int|
                        position_data + move_forward + i <= k < end + move_forward
                            ==> self.buf@[k] == before[k - move_forward],
                decreases i,
            {
                i -= 1;
                self.buf[position_data + move_forward + i] = self.buf[position_data + i];
            }
            self.index += move_forward;
            put_length(&actual_length, self.buf, position_length);
        }
        Ok(())
    }

    /// Write a sequence to the DER writer
    ///
    /// The content is what `f` writes. `f` may fail, and its error is then
    /// the error of the sequence; it must keep what was written before it and
    /// the buffer's size, as every function of the writer does.
    pub fn sequence<F>(&mut self, f: F) -> (r: Result<(), Error>) where
        F: Fn(&mut Self) -> Result<(), Error>,

        requires
            forall|w: &mut Self|
                w@ == old(self)@ + seq![0x30u8, 0x00u8] && w.capacity() == old(self).capacity()
                    ==> #[trigger] f.requires((w,)),
            forall|w: &mut Self, inner: Result<(), Error>| #[trigger]
                f.ensures((w,), inner) ==> final(w).capacity() == w.capacity() && w@.is_prefix_of(
                    final(w)@,
                ),
        ensures
            final(self).capacity() == old(self).capacity(),
            old(self)@.len() + 2 > old(self).capacity() ==> r == Err::<(), _>(
                Error::BufferTooSmall(old(self).capacity() as usize),
            ) && final(self).unchanged(old(self)),
            old(self)@.len() + 2 <= old(self).capacity() ==> exists|
                w: &mut Self,
                inner: Result<(), Error>,
            |
                {
                    &&& w@ == old(self)@ + seq![0x30u8, 0x00u8]
                    &&& w.capacity() == old(self).capacity()
                    &&& #[trigger] f.ensures((w,), inner)
                    &&& match spec_close_sequence(
                        final(w)@,
                        old(self).capacity(),
                        old(self)@.len() as int,
                        inner,
                    ) {
                        Ok(written) => r == Ok::<(), Error>(()) && final(self)@ == written,
                        Err(e) => r == Err::<(), _>(e) && final(self)@ == old(self)@,
                    }
                },
    {
        let start = self.open_sequence()?;
        let inner = f(self);
        assert(self@.take(start as int) =~= old(self)@);
        self.close_sequence(start, inner)
    }

    /// Get the current position in the Writer, which is also the number of byte written
    pub fn current_position(&self) -> (r: usize)
        ensures
            r == self@.len(),
            r == self.position(),
            r <= self.capacity(),
    {
        proof {
            use_type_invariant(self);
        }
        self.index
    }

    /// Return the inner sub-slice with a valid DER stream of data
    pub fn finish<'b: 'a>(&'b self) -> (r: &'a [u8])
        ensures
            r@ == self@,
    {
        proof {
            use_type_invariant(self);
        }
        &self.buf[0..self.index]
    }
}

} // verus!
