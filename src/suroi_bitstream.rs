//! A bit stream with the game's own wire helpers: object ids, variations,
//! player names, arrays and byte alignment.
use crate::bitstream::{BitStream, StreamError};
use crate::strings::{read_ascii_string, text_read, write_ascii_string, wrote_bytes, padded};
use vstd::prelude::*;
use vstd::utf8::{encode_utf8, is_ascii_chars};

verus! {

/// Bits of an object category.
pub const OBJECT_CATEGORY_BITS: usize = 4;

/// Bits of an object id.
pub const OBJECT_ID_BITS: usize = 13;

/// Bits of an object variation.
pub const VARIATION_BITS: usize = 3;

/// Bytes of a player name on the wire.
pub const NAME_MAX_LENGTH: usize = 16;

/// A bit stream that also speaks the game's wire helpers.
#[derive(Clone, Debug)]
pub struct SuroiBitStream {
    internal: BitStream,
}

impl SuroiBitStream {
    /// The underlying stream.
    pub closed spec fn spec_stream(&self) -> BitStream {
        self.internal
    }

    /// The underlying stream is well formed.
    pub open spec fn wf(&self) -> bool {
        self.spec_stream().wf()
    }

    /// Creates a zero-filled stream of `bytes` bytes.
    pub fn new(bytes: usize) -> (r: SuroiBitStream)
        requires
            bytes * 8 <= usize::MAX,
        ensures
            r.wf(),
            r.spec_stream().spec_bytes() == Seq::new(bytes as nat, |i: int| 0u8),
            r.spec_stream().spec_index() == 0,
            r.spec_stream().spec_endianness() == crate::bitstream::Endianness::Little,
    {
        SuroiBitStream { internal: BitStream::new(bytes) }
    }

    /// Wraps an existing stream, such as one over received bytes.
    pub fn from_stream(stream: BitStream) -> (r: SuroiBitStream)
        ensures
            r.spec_stream() == stream,
    {
        SuroiBitStream { internal: stream }
    }

    /// The underlying stream, by reference.
    pub fn stream(&self) -> (r: &BitStream)
        ensures
            *r == self.spec_stream(),
    {
        &self.internal
    }

    /// The index, in bits.
    pub fn get_index(&self) -> (r: usize)
        ensures
            r == self.spec_stream().spec_index(),
    {
        self.internal.get_index()
    }

    /// How many bits are left after the index.
    pub fn bits_left(&self) -> (r: usize)
        requires
            self.wf(),
        ensures
            r == self.spec_stream().spec_bits_left(),
    {
        self.internal.bits_left()
    }

    /// Reads the next `bits` bits (at most 32) as an unsigned number.
    pub fn read_bits(&mut self, bits: usize) -> (r: Result<u32, StreamError>)
        requires
            old(self).wf(),
        ensures
            final(self).wf(),
            r is Ok <==> bits <= 32 && bits <= old(self).spec_stream().spec_bits_left(),
            r is Err ==> *final(self) == *old(self),
            r is Ok ==> r->Ok_0 == old(self).spec_stream().next_value(bits as int)
                && old(self).spec_stream().advanced(&final(self).spec_stream(), bits as int),
    {
        self.internal.read_bits(bits)
    }

    /// Writes the `bits` low bits (at most 32) of `value`.
    pub fn write_bits_us(&mut self, value: u32, bits: usize) -> (r: Result<(), StreamError>)
        requires
            old(self).wf(),
        ensures
            final(self).wf(),
            r is Ok <==> bits <= 32 && bits <= old(self).spec_stream().spec_bits_left(),
            r is Err ==> *final(self) == *old(self),
            r is Ok ==> old(self).spec_stream().wrote(
                &final(self).spec_stream(),
                bits as int,
                value as u64,
            ),
    {
        self.internal.write_bits_us(value, bits)
    }

    /// Writes an object id in `OBJECT_ID_BITS` bits.
    pub fn write_object_id(&mut self, id: u32) -> (r: Result<(), StreamError>)
        requires
            old(self).wf(),
        ensures
            final(self).wf(),
            r is Ok <==> OBJECT_ID_BITS <= old(self).spec_stream().spec_bits_left(),
            r is Err ==> r == Err::<(), StreamError>(StreamError::OutOfBounds) && *final(self)
                == *old(self),
            r is Ok ==> old(self).spec_stream().wrote(
                &final(self).spec_stream(),
                OBJECT_ID_BITS as int,
                id as u64,
            ),
    {
        self.internal.write_bits_us(id, OBJECT_ID_BITS)
    }

    /// Reads an object id of `OBJECT_ID_BITS` bits.
    pub fn read_object_id(&mut self) -> (r: Result<u32, StreamError>)
        requires
            old(self).wf(),
        ensures
            final(self).wf(),
            r is Ok <==> OBJECT_ID_BITS <= old(self).spec_stream().spec_bits_left(),
            r is Err ==> r == Err::<u32, StreamError>(StreamError::OutOfBounds) && *final(self)
                == *old(self),
            r is Ok ==> r->Ok_0 == old(self).spec_stream().next_value(OBJECT_ID_BITS as int)
                && old(self).spec_stream().advanced(&final(self).spec_stream(), OBJECT_ID_BITS as int),
    {
        self.internal.read_bits(OBJECT_ID_BITS)
    }

    /// Skips the `bit_count` bits of a rotation.
    pub fn read_rotation(&mut self, bit_count: usize) -> (r: Result<(), StreamError>)
        requires
            old(self).wf(),
        ensures
            final(self).wf(),
            r is Ok <==> bit_count <= 32 && bit_count <= old(self).spec_stream().spec_bits_left(),
            r is Err ==> *final(self) == *old(self),
            r is Ok ==> old(self).spec_stream().advanced(&final(self).spec_stream(), bit_count as int),
    {
        match self.internal.read_bits(bit_count) {
            Ok(_) => Ok(()),
            Err(err) => Err(err),
        }
    }

    /// Skips the `bit_count` bits of a scale.
    pub fn read_scale(&mut self, bit_count: usize) -> (r: Result<(), StreamError>)
        requires
            old(self).wf(),
        ensures
            final(self).wf(),
            r is Ok <==> bit_count <= 32 && bit_count <= old(self).spec_stream().spec_bits_left(),
            r is Err ==> *final(self) == *old(self),
            r is Ok ==> old(self).spec_stream().advanced(&final(self).spec_stream(), bit_count as int),
    {
        match self.internal.read_bits(bit_count) {
            Ok(_) => Ok(()),
            Err(err) => Err(err),
        }
    }

    /// Writes the low `VARIATION_BITS` bits of a variation.
    pub fn write_variation(&mut self, variation: u8) -> (r: Result<(), StreamError>)
        requires
            old(self).wf(),
        ensures
            final(self).wf(),
            r is Ok <==> VARIATION_BITS <= old(self).spec_stream().spec_bits_left(),
            r is Err ==> r == Err::<(), StreamError>(StreamError::OutOfBounds) && *final(self)
                == *old(self),
            r is Ok ==> old(self).spec_stream().wrote(
                &final(self).spec_stream(),
                VARIATION_BITS as int,
                variation as u64,
            ),
    {
        self.internal.write_bits_us(variation as u32, VARIATION_BITS)
    }

    /// Reads a variation of `VARIATION_BITS` bits.
    pub fn read_variation(&mut self) -> (r: Result<u8, StreamError>)
        requires
            old(self).wf(),
        ensures
            final(self).wf(),
            r is Ok <==> VARIATION_BITS <= old(self).spec_stream().spec_bits_left(),
            r is Err ==> r == Err::<u8, StreamError>(StreamError::OutOfBounds) && *final(self)
                == *old(self),
            r is Ok ==> r->Ok_0 == old(self).spec_stream().next_value(VARIATION_BITS as int)
                && old(self).spec_stream().advanced(&final(self).spec_stream(), VARIATION_BITS as int),
    {
        match self.internal.read_bits(VARIATION_BITS) {
            Ok(v) => {
                proof {
                    crate::bitstream::lemma_read_value_bound(
                        old(self).spec_stream().spec_bytes(),
                        old(self).spec_stream().spec_endianness(),
                        old(self).spec_stream().spec_index() as int,
                        3,
                    );
                    vstd::arithmetic::power2::lemma2_to64();
                }
                Ok(v as u8)
            },
            Err(err) => Err(err),
        }
    }

    /// Writes a player name, ASCII, in `NAME_MAX_LENGTH` bytes padded with zeros.
    pub fn write_player_name(&mut self, name: &str) -> (r: Result<(), StreamError>)
        requires
            old(self).wf(),
        ensures
            final(self).wf(),
            r is Ok <==> is_ascii_chars(name@) && 8 * NAME_MAX_LENGTH
                <= old(self).spec_stream().spec_bits_left(),
            !is_ascii_chars(name@) ==> r == Err::<(), StreamError>(StreamError::NotAscii),
            r is Err ==> *final(self) == *old(self),
            r is Ok ==> wrote_bytes(
                &old(self).spec_stream(),
                &final(self).spec_stream(),
                padded(encode_utf8(name@), NAME_MAX_LENGTH as nat),
            ),
    {
        write_ascii_string(&mut self.internal, name, Some(NAME_MAX_LENGTH))
    }

    /// Reads a player name of `NAME_MAX_LENGTH` bytes: the ASCII bytes before the
    /// first zero.
    pub fn read_player_name(&mut self) -> (r: Result<String, StreamError>)
        requires
            old(self).wf(),
        ensures
            final(self).wf(),
            ({
                let t = text_read(&old(self).spec_stream(), Some(NAME_MAX_LENGTH));
                &&& r is Ok <==> t is Some && forall|i: int|
                    0 <= i < t->Some_0.0.len() ==> #[trigger] t->Some_0.0[i] < 0x80
                &&& t is None ==> r == Err::<String, StreamError>(StreamError::OutOfBounds)
                    && *final(self) == *old(self)
                &&& t is Some ==> old(self).spec_stream().advanced(
                    &final(self).spec_stream(),
                    8 * NAME_MAX_LENGTH,
                )
                &&& t is Some && r is Err ==> r == Err::<String, StreamError>(StreamError::NotAscii)
                &&& r is Ok ==> encode_utf8(r->Ok_0@) == t->Some_0.0
            }),
    {
        read_ascii_string(&mut self.internal, Some(NAME_MAX_LENGTH))
    }

    /// Pads with zero bits up to the next byte boundary.
    pub fn write_align_to_next_byte(&mut self) -> (r: Result<(), StreamError>)
        requires
            old(self).wf(),
        ensures
            final(self).wf(),
            ({
                let idx = old(self).spec_stream().spec_index() as int;
                let pad = if idx % 8 == 0 { 0 } else { 8 - idx % 8 };
                &&& r is Ok <==> pad <= old(self).spec_stream().spec_bits_left()
                &&& r is Err ==> *final(self) == *old(self)
                &&& r is Ok ==> old(self).spec_stream().wrote(&final(self).spec_stream(), pad, 0)
                    && final(self).spec_stream().spec_index() % 8 == 0
            }),
    {
        let offset = 8 - self.internal.get_index() % 8;
        if offset < 8 {
            self.internal.write_bits(0, offset)
        } else {
            let r = self.internal.write_bits_us(0, 0);
            proof {
                assert(r is Ok);
            }
            r
        }
    }

    /// Skips bits up to the next byte boundary.
    pub fn read_align_to_next_byte(&mut self) -> (r: Result<(), StreamError>)
        requires
            old(self).wf(),
        ensures
            final(self).wf(),
            ({
                let idx = old(self).spec_stream().spec_index() as int;
                let pad = if idx % 8 == 0 { 0 } else { 8 - idx % 8 };
                &&& r is Ok <==> pad <= old(self).spec_stream().spec_bits_left()
                &&& r is Err ==> *final(self) == *old(self)
                &&& r is Ok ==> old(self).spec_stream().advanced(&final(self).spec_stream(), pad)
                    && final(self).spec_stream().spec_index() % 8 == 0
            }),
    {
        let offset = 8 - self.internal.get_index() % 8;
        let skip = if offset < 8 {
            offset
        } else {
            0
        };
        match self.internal.read_bits(skip) {
            Ok(_) => Ok(()),
            Err(err) => Err(err),
        }
    }

    /// Reads an array length of `bit_count` bits, then calls `element_deserializer`
    /// once per element and appends what it returns to `target`.
    pub fn read_array<T, F: Fn() -> T>(
        &mut self,
        target: &mut Vec<T>,
        bit_count: usize,
        element_deserializer: F,
    ) -> (r: Result<(), StreamError>)
        requires
            old(self).wf(),
            forall|| element_deserializer.requires(()),
        ensures
            final(self).wf(),
            r is Ok <==> bit_count <= 32 && bit_count <= old(self).spec_stream().spec_bits_left(),
            r is Err ==> *final(self) == *old(self) && final(target)@ == old(target)@,
            r is Ok ==> old(self).spec_stream().advanced(&final(self).spec_stream(), bit_count as int)
                && final(target)@.len() == old(target)@.len() + old(self).spec_stream().next_value(
                bit_count as int,
            ) && final(target)@.subrange(0, old(target)@.len() as int) == old(target)@ && forall|
                i: int,
            |
                old(target)@.len() <= i < final(target)@.len() ==> element_deserializer.ensures(
                    (),
                    #[trigger] final(target)@[i],
                ),
    {
        let length = match self.internal.read_bits(bit_count) {
            Ok(v) => v,
            Err(err) => return Err(err),
        };
        let ghost start = target@;
        let mut i: u32 = 0;
        while i < length
            invariant
                i <= length,
                forall|| element_deserializer.requires(()),
                target@.len() == start.len() + i,
                target@.subrange(0, start.len() as int) == start,
                forall|k: int|
                    start.len() <= k < target@.len() ==> element_deserializer.ensures(
                        (),
                        #[trigger] target@[k],
                    ),
            decreases length - i,
        {
            let item = element_deserializer();
            target.push(item);
            proof {
                assert(target@.subrange(0, start.len() as int) =~= start);
            }
            i = i + 1;
        }
        Ok(())
    }

    /// Reads an array length of `bit_count` bits, then calls `element_deserializer`
    /// once per element and returns what it returned, in order.
    pub fn read_and_create_array<T, F: Fn() -> T>(
        &mut self,
        bit_count: usize,
        element_deserializer: F,
    ) -> (r: Result<Vec<T>, StreamError>)
        requires
            old(self).wf(),
            forall|| element_deserializer.requires(()),
        ensures
            final(self).wf(),
            r is Ok <==> bit_count <= 32 && bit_count <= old(self).spec_stream().spec_bits_left(),
            r is Err ==> *final(self) == *old(self),
            r is Ok ==> old(self).spec_stream().advanced(&final(self).spec_stream(), bit_count as int)
                && r->Ok_0@.len() == old(self).spec_stream().next_value(bit_count as int) && forall|
                i: int,
            | 0 <= i < r->Ok_0@.len() ==> element_deserializer.ensures((), #[trigger] r->Ok_0@[i]),
    {
        let mut out: Vec<T> = Vec::new();
        match self.read_array(&mut out, bit_count, element_deserializer) {
            Ok(()) => Ok(out),
            Err(err) => Err(err),
        }
    }

    /// Writes the length of `arr` in `bit_count` bits (its low bits, when it does
    /// not fit), then calls `element_serializer` on the elements in order, stopping
    /// after element `2^bit_count`.
    pub fn write_array<T, F: Fn(&T)>(&mut self, arr: &Vec<T>, bit_count: usize, element_serializer: F) -> (r: Result<
        (),
        StreamError,
    >)
        requires
            old(self).wf(),
            forall|x: &T| element_serializer.requires((x,)),
        ensures
            final(self).wf(),
            r is Ok <==> bit_count <= 32 && bit_count <= old(self).spec_stream().spec_bits_left(),
            r is Err ==> *final(self) == *old(self),
            r is Ok ==> old(self).spec_stream().wrote(
                &final(self).spec_stream(),
                bit_count as int,
                (arr@.len() as u32) as u64,
            ),
    {
        let length = arr.len();
        let written = self.internal.write_bits_us(length as u32, bit_count);
        if written.is_err() {
            return written;
        }
        let max: u128 = 1u128 << bit_count as u128;
        let mut i: usize = 0;
        while i < length
            invariant
                i <= length == arr@.len(),
                forall|x: &T| element_serializer.requires((x,)),
            decreases length - i,
        {
            if i as u128 > max {
                break;
            }
            element_serializer(&arr[i]);
            i = i + 1;
        }
        Ok(())
    }
}

} // verus!
