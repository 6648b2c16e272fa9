//! Text on a bit stream: ASCII or UTF-8, null-terminated or of a fixed length.
use crate::bitstream::{read_value, stream_bit, stream_bits, value_bits, BitStream, Endianness, StreamError};
use vstd::prelude::*;
use vstd::string::StrSliceExecFns;
use vstd::utf8::{
    char_is_scalar, encode_scalar, encode_utf8, partial_valid_utf8,
    is_ascii_chars, partial_valid_utf8_extend_ascii_block, valid_utf8,
};

verus! {

/// Byte `i` of the run that starts at bit `start`, each byte read as 8 bits.
pub open spec fn byte_at(bytes: Seq<u8>, e: Endianness, start: int, i: int) -> u8 {
    read_value(bytes, e, start + 8 * i, 8) as u8
}

/// The first `j` in `i..limit` whose byte is zero, or `limit` when there is none.
pub open spec fn first_zero(bytes: Seq<u8>, e: Endianness, start: int, i: int, limit: int) -> int
    decreases limit - i,
{
    if i >= limit {
        limit
    } else if byte_at(bytes, e, start, i) == 0 {
        i
    } else {
        first_zero(bytes, e, start, i + 1, limit)
    }
}

/// The bytes that come before the first zero among the `limit` bytes at the index.
pub open spec fn text_before_zero(s: &BitStream, limit: int) -> Seq<u8> {
    let start = s.spec_index() as int;
    Seq::new(
        first_zero(s.spec_bytes(), s.spec_endianness(), start, 0, limit) as nat,
        |i: int| byte_at(s.spec_bytes(), s.spec_endianness(), start, i),
    )
}

/// `data` padded with zero bytes, or cut, to `n` bytes.
pub open spec fn padded(data: Seq<u8>, n: nat) -> Seq<u8> {
    Seq::new(n, |i: int| if i < data.len() { data[i] } else { 0u8 })
}

/// `after` is `before` with the bytes of `data` written from bit `start`.
pub open spec fn bytes_written(
    before: Seq<u8>,
    after: Seq<u8>,
    e: Endianness,
    start: int,
    data: Seq<u8>,
) -> bool {
    &&& after.len() == before.len()
    &&& forall|i: int|
        0 <= i < data.len() ==> #[trigger] stream_bits(after, e, start + 8 * i, 8) == value_bits(
            e,
            data[i] as u64,
            8,
        )
    &&& forall|p: int|
        0 <= p < before.len() * 8 && !(start <= p < start + 8 * data.len()) ==> #[trigger] stream_bit(
            after,
            e,
            p,
        ) == stream_bit(before, e, p)
}

/// `after` is `s` with `data` written at the index, and the index moved past it.
pub open spec fn wrote_bytes(s: &BitStream, after: &BitStream, data: Seq<u8>) -> bool {
    &&& after.wf()
    &&& after.spec_endianness() == s.spec_endianness()
    &&& bytes_written(
        s.spec_bytes(),
        after.spec_bytes(),
        s.spec_endianness(),
        s.spec_index() as int,
        data,
    )
    &&& after.spec_index() == s.spec_index() + 8 * data.len()
}

/// How many bytes a string takes: the fixed count, or its bytes and a null byte.
pub open spec fn text_length(encoded: Seq<u8>, bytes: Option<usize>) -> int {
    match bytes {
        Some(n) => n as int,
        None => encoded.len() + 1 as int,
    }
}

proof fn lemma_encode_push(s: Seq<char>, c: char)
    ensures
        encode_utf8(s.push(c)) == encode_utf8(s) + encode_scalar(c as u32),
    decreases s.len(),
{
    if s.len() == 0 {
        assert(s.push(c).drop_first() =~= Seq::<char>::empty());
        assert(encode_utf8(Seq::<char>::empty()) == Seq::<u8>::empty());
        assert(encode_utf8(s.push(c)) =~= encode_scalar(c as u32));
        assert(encode_utf8(s) == Seq::<u8>::empty());
        assert(encode_utf8(s) + encode_scalar(c as u32) =~= encode_scalar(c as u32));
    } else {
        assert(s.push(c).drop_first() =~= s.drop_first().push(c));
        lemma_encode_push(s.drop_first(), c);
        assert(encode_utf8(s.push(c)) =~= encode_scalar(s[0] as u32) + (encode_utf8(s.drop_first())
            + encode_scalar(c as u32)));
    }
}

/// The UTF-8 bytes of `string`: one byte up to U+007F, two up to U+07FF, three
/// up to U+FFFF, four above; continuation bytes are tagged `10xxxxxx`.
pub fn string_to_byte_array(string: &str) -> (r: Vec<u8>)
    ensures
        r@ == encode_utf8(string@),
{
    let mut res: Vec<u8> = Vec::new();
    let n = string.unicode_len();
    let mut i: usize = 0;
    while i < n
        invariant
            i <= n,
            n == string@.len(),
            res@ == encode_utf8(string@.take(i as int)),
        decreases n - i,
    {
        let c = string.get_char(i);
        let unicode = c as u32;
        let ghost before = res@;
        proof {
            char_is_scalar(c);
        }
        if unicode <= 0x7F {
            res.push(unicode as u8);
            proof {
                assert(unicode as u8 == (unicode & 0x7F) as u8) by (bit_vector)
                    requires
                        unicode <= 0x7F,
                ;
            }
        } else if unicode <= 0x7FF {
            res.push(((unicode >> 6) | 0xC0) as u8);
            res.push(((unicode & 0x3F) | 0x80) as u8);
            proof {
                assert(((unicode >> 6) | 0xC0) as u8 == 0xC0 | ((unicode >> 6) & 0x1F) as u8
                    && ((unicode & 0x3F) | 0x80) as u8 == 0x80 | (unicode & 0x3F) as u8)
                    by (bit_vector)
                    requires
                        0x80 <= unicode <= 0x7FF,
                ;
            }
        } else if unicode <= 0xFFFF {
            res.push(((unicode >> 12) | 0xE0) as u8);
            res.push((((unicode >> 6) & 0x3F) | 0x80) as u8);
            res.push(((unicode & 0x3F) | 0x80) as u8);
            proof {
                assert(((unicode >> 12) | 0xE0) as u8 == 0xE0 | ((unicode >> 12) & 0x0F) as u8
                    && (((unicode >> 6) & 0x3F) | 0x80) as u8 == 0x80 | ((unicode >> 6) & 0x3F) as u8
                    && ((unicode & 0x3F) | 0x80) as u8 == 0x80 | (unicode & 0x3F) as u8)
                    by (bit_vector)
                    requires
                        0x800 <= unicode <= 0xFFFF,
                ;
            }
        } else {
            res.push(((unicode >> 18) | 0xF0) as u8);
            res.push((((unicode >> 12) & 0x3F) | 0x80) as u8);
            res.push((((unicode >> 6) & 0x3F) | 0x80) as u8);
            res.push(((unicode & 0x3F) | 0x80) as u8);
            proof {
                assert(((unicode >> 18) | 0xF0) as u8 == 0xF0 | ((unicode >> 18) & 0x7) as u8
                    && (((unicode >> 12) & 0x3F) | 0x80) as u8 == 0x80 | ((unicode >> 12) & 0x3F) as u8
                    && (((unicode >> 6) & 0x3F) | 0x80) as u8 == 0x80 | ((unicode >> 6) & 0x3F) as u8
                    && ((unicode & 0x3F) | 0x80) as u8 == 0x80 | (unicode & 0x3F) as u8)
                    by (bit_vector)
                    requires
                        0x10000 <= unicode <= 0x10FFFF,
                ;
            }
        }
        proof {
            assert(string@.take(i + 1) =~= string@.take(i as int).push(c));
            lemma_encode_push(string@.take(i as int), c);
            assert(res@ =~= before + encode_scalar(unicode));
        }
        i = i + 1;
    }
    proof {
        assert(string@.take(n as int) =~= string@);
    }
    res
}

/// What a read of text finds at the index: the bytes before the first zero and
/// how many bits it consumes, or nothing when the buffer runs out first. With a
/// fixed count the whole count is consumed; without one, up to the zero byte.
pub open spec fn text_read(s: &BitStream, bytes: Option<usize>) -> Option<(Seq<u8>, int)> {
    match bytes {
        Some(n) => if 8 * n <= s.spec_bits_left() {
            Some((text_before_zero(s, n as int), 8 * n))
        } else {
            None
        },
        None => {
            let limit = s.spec_bits_left() / 8;
            let k = first_zero(s.spec_bytes(), s.spec_endianness(), s.spec_index() as int, 0, limit);
            if k < limit {
                Some((text_before_zero(s, limit), 8 * (k + 1)))
            } else {
                None
            }
        },
    }
}

/// Relies on `String::from_utf8`: it accepts exactly the valid UTF-8 byte
/// sequences, and the string it returns holds those bytes.
#[verifier::external_body]
pub(crate) fn string_from_utf8(bytes: Vec<u8>) -> (r: Option<String>)
    ensures
        r is Some <==> valid_utf8(bytes@),
        r is Some ==> encode_utf8(r->Some_0@) == bytes@,
{
    String::from_utf8(bytes).ok()
}

proof fn lemma_bytes_step(
    b0: Seq<u8>,
    b1: Seq<u8>,
    b2: Seq<u8>,
    e: Endianness,
    start: int,
    data: Seq<u8>,
    b: u8,
)
    requires
        0 <= start,
        start + 8 * (data.len() + 1) <= b0.len() * 8,
        bytes_written(b0, b1, e, start, data),
        crate::bitstream::written(b1, b2, e, start + 8 * data.len(), 8, b as u64),
    ensures
        bytes_written(b0, b2, e, start, data.push(b)),
{
    let d2 = data.push(b);
    assert forall|i: int| 0 <= i < d2.len() implies #[trigger] stream_bits(b2, e, start + 8 * i, 8)
        == value_bits(e, d2[i] as u64, 8) by {
        if i < data.len() {
            assert forall|j: int| 0 <= j < 8 implies #[trigger] stream_bit(b2, e, start + 8 * i + j)
                == stream_bit(b1, e, start + 8 * i + j) by {
                assert(0 <= start + 8 * i + j < b1.len() * 8);
            }
            assert(stream_bits(b2, e, start + 8 * i, 8) =~= stream_bits(b1, e, start + 8 * i, 8));
        }
    }
}

/// Writes `length` bytes: those of `data`, then zeros; the room is checked first.
fn write_padded(stream: &mut BitStream, data: &Vec<u8>, length: usize) -> (r: Result<
    (),
    StreamError,
>)
    requires
        old(stream).wf(),
    ensures
        final(stream).wf(),
        r is Ok <==> 8 * length <= old(stream).spec_bits_left(),
        r is Err ==> r == Err::<(), StreamError>(StreamError::OutOfBounds) && *final(stream)
            == *old(stream),
        r is Ok ==> wrote_bytes(old(stream), final(stream), padded(data@, length as nat)),
{
    if length > stream.bits_left() / 8 {
        return Err(StreamError::OutOfBounds);
    }
    let ghost b0 = stream.spec_bytes();
    let ghost start = stream.spec_index() as int;
    let ghost e = stream.spec_endianness();
    let ghost full = padded(data@, length as nat);
    let mut i: usize = 0;
    proof {
        assert(full.take(0) =~= Seq::<u8>::empty());
    }
    while i < length
        invariant
            stream.wf(),
            stream.spec_endianness() == e,
            0 <= start,
            i <= length,
            start + 8 * length <= b0.len() * 8,
            stream.spec_index() == start + 8 * i,
            full == padded(data@, length as nat),
            bytes_written(b0, stream.spec_bytes(), e, start, full.take(i as int)),
        decreases length - i,
    {
        let b: u8 = if i < data.len() {
            data[i]
        } else {
            0
        };
        let ghost mid = stream.spec_bytes();
        let w = stream.write_uint8(b);
        proof {
            assert(w is Ok);
            assert(full.take(i as int).len() == i);
            lemma_bytes_step(b0, mid, stream.spec_bytes(), e, start, full.take(i as int), b);
            assert(full.take(i as int).push(b) =~= full.take(i + 1));
        }
        i = i + 1;
    }
    proof {
        assert(full.take(length as int) =~= full);
    }
    Ok(())
}

/// Reads text bytes: a fixed count of bytes, keeping those before the first zero,
/// or, without a count, bytes up to and including the first zero.
fn read_text_bytes(stream: &mut BitStream, bytes: Option<usize>) -> (r: Result<
    Vec<u8>,
    StreamError,
>)
    requires
        old(stream).wf(),
    ensures
        final(stream).wf(),
        r is Ok <==> text_read(old(stream), bytes) is Some,
        r is Err ==> r == Err::<Vec<u8>, StreamError>(StreamError::OutOfBounds),
        r is Err && bytes is Some ==> *final(stream) == *old(stream),
        r is Ok ==> r->Ok_0@ == text_read(old(stream), bytes)->Some_0.0 && old(stream).advanced(
            final(stream),
            text_read(old(stream), bytes)->Some_0.1,
        ),
{
    let ghost bs = stream.spec_bytes();
    let ghost start = stream.spec_index() as int;
    let ghost e = stream.spec_endianness();
    let fixed = bytes.is_some();
    let limit: usize = match bytes {
        Some(n) => {
            if n > stream.bits_left() / 8 {
                return Err(StreamError::OutOfBounds);
            }
            n
        },
        None => stream.bits_left() / 8,
    };
    let mut chars: Vec<u8> = Vec::new();
    let mut append = true;
    let mut i: usize = 0;
    while i < limit
        invariant
            stream.wf(),
            stream.spec_bytes() == bs,
            stream.spec_endianness() == e,
            bs == old(stream).spec_bytes(),
            e == old(stream).spec_endianness(),
            start == old(stream).spec_index(),
            0 <= start,
            i <= limit,
            start + 8 * limit <= bs.len() * 8,
            stream.spec_index() == start + 8 * i,
            fixed == bytes is Some,
            fixed ==> limit == bytes->Some_0,
            !fixed ==> limit == (bs.len() * 8 - start) / 8,
            append ==> chars@ == Seq::new(i as nat, |k: int| byte_at(bs, e, start, k))
                && first_zero(bs, e, start, 0, limit as int) == first_zero(bs, e, start, i as int, limit as int),
            !append ==> fixed && chars@ == Seq::new(
                first_zero(bs, e, start, 0, limit as int) as nat,
                |k: int| byte_at(bs, e, start, k),
            ),
        decreases limit - i,
    {
        let c = match stream.read_uint8() {
            Ok(c) => c,
            Err(_) => {
                proof {
                    assert(false);
                }
                0
            },
        };
        proof {
            assert(c == byte_at(bs, e, start, i as int));
        }
        // stop appending at the null byte
        if c == 0 && append {
            append = false;
            if !fixed {
                proof {
                    assert(first_zero(bs, e, start, i as int, limit as int) == i);
                    assert(chars@ =~= text_before_zero(old(stream), limit as int));
                }
                return Ok(chars);
            }
        }
        if append {
            chars.push(c);
            proof {
                assert(chars@ =~= Seq::new((i + 1) as nat, |k: int| byte_at(bs, e, start, k)));
            }
        }
        i = i + 1;
    }
    if append && !fixed {
        return Err(StreamError::OutOfBounds);
    }
    Ok(chars)
}

/// Writes `string`, which must be ASCII, as `bytes` bytes, or as its bytes and a
/// null byte when no count is given; missing bytes are zeros.
pub fn write_ascii_string(stream: &mut BitStream, string: &str, bytes: Option<usize>) -> (r: Result<
    (),
    StreamError,
>)
    requires
        old(stream).wf(),
    ensures
        final(stream).wf(),
        ({
            let enc = encode_utf8(string@);
            let len = text_length(enc, bytes);
            &&& r is Ok <==> is_ascii_chars(string@) && 8 * len <= old(stream).spec_bits_left()
            &&& !is_ascii_chars(string@) ==> r == Err::<(), StreamError>(StreamError::NotAscii)
            &&& is_ascii_chars(string@) && 8 * len > old(stream).spec_bits_left() ==> r == Err::<
                (),
                StreamError,
            >(StreamError::OutOfBounds)
            &&& r is Err ==> *final(stream) == *old(stream)
            &&& r is Ok ==> wrote_bytes(old(stream), final(stream), padded(enc, len as nat))
        }),
{
    if !string.is_ascii() {
        return Err(StreamError::NotAscii);
    }
    write_utf8_string(stream, string, bytes)
}

/// Writes the UTF-8 bytes of `string` as `bytes` bytes, or followed by a null byte
/// when no count is given; missing bytes are zeros.
pub fn write_utf8_string(stream: &mut BitStream, string: &str, bytes: Option<usize>) -> (r: Result<
    (),
    StreamError,
>)
    requires
        old(stream).wf(),
    ensures
        final(stream).wf(),
        ({
            let enc = encode_utf8(string@);
            let len = text_length(enc, bytes);
            &&& r is Ok <==> 8 * len <= old(stream).spec_bits_left()
            &&& r is Err ==> r == Err::<(), StreamError>(StreamError::OutOfBounds) && *final(stream)
                == *old(stream)
            &&& r is Ok ==> wrote_bytes(old(stream), final(stream), padded(enc, len as nat))
        }),
{
    let byte_array = string_to_byte_array(string);
    let length: usize = match bytes {
        Some(n) => n,
        None => {
            // one more for the null byte
            if byte_array.len() >= stream.bits_left() / 8 {
                return Err(StreamError::OutOfBounds);
            }
            byte_array.len() + 1
        },
    };
    write_padded(stream, &byte_array, length)
}

/// Whether every byte is below 0x80.
fn all_ascii(b: &Vec<u8>) -> (r: bool)
    ensures
        r == forall|i: int| 0 <= i < b@.len() ==> #[trigger] b@[i] < 0x80,
{
    let mut i: usize = 0;
    while i < b.len()
        invariant
            i <= b.len(),
            forall|k: int| 0 <= k < i ==> #[trigger] b@[k] < 0x80,
        decreases b.len() - i,
    {
        if b[i] >= 0x80 {
            return false;
        }
        i = i + 1;
    }
    true
}

/// Reads text as `read_utf8_string` does, and refuses bytes outside ASCII.
pub fn read_ascii_string(stream: &mut BitStream, bytes: Option<usize>) -> (r: Result<
    String,
    StreamError,
>)
    requires
        old(stream).wf(),
    ensures
        final(stream).wf(),
        ({
            let t = text_read(old(stream), bytes);
            &&& r is Ok <==> t is Some && forall|i: int|
                0 <= i < t->Some_0.0.len() ==> #[trigger] t->Some_0.0[i] < 0x80
            &&& t is None ==> r == Err::<String, StreamError>(StreamError::OutOfBounds)
            &&& t is None && bytes is Some ==> *final(stream) == *old(stream)
            &&& t is Some ==> old(stream).advanced(final(stream), t->Some_0.1)
            &&& t is Some && r is Err ==> r == Err::<String, StreamError>(StreamError::NotAscii)
            &&& r is Ok ==> encode_utf8(r->Ok_0@) == t->Some_0.0
        }),
{
    let chars = read_text_bytes(stream, bytes)?;
    if !all_ascii(&chars) {
        return Err(StreamError::NotAscii);
    }
    proof {
        assert(partial_valid_utf8(chars@, 0)) by {
            assert(chars@.subrange(0, 0) =~= Seq::<u8>::empty());
        }
        partial_valid_utf8_extend_ascii_block(chars@, 0, chars@.len() as int);
        assert(chars@.subrange(0, chars@.len() as int) =~= chars@);
    }
    match string_from_utf8(chars) {
        Some(text) => Ok(text),
        None => Err(StreamError::InvalidUtf8),
    }
}

/// Reads text: with a count, that many bytes, keeping those before the first zero;
/// without one, bytes up to and including the first zero, which is dropped.
pub fn read_utf8_string(stream: &mut BitStream, bytes: Option<usize>) -> (r: Result<
    String,
    StreamError,
>)
    requires
        old(stream).wf(),
    ensures
        final(stream).wf(),
        ({
            let t = text_read(old(stream), bytes);
            &&& r is Ok <==> t is Some && valid_utf8(t->Some_0.0)
            &&& t is None ==> r == Err::<String, StreamError>(StreamError::OutOfBounds)
            &&& t is None && bytes is Some ==> *final(stream) == *old(stream)
            &&& t is Some ==> old(stream).advanced(final(stream), t->Some_0.1)
            &&& t is Some && r is Err ==> r == Err::<String, StreamError>(StreamError::InvalidUtf8)
            &&& r is Ok ==> encode_utf8(r->Ok_0@) == t->Some_0.0
        }),
{
    let chars = read_text_bytes(stream, bytes)?;
    match string_from_utf8(chars) {
        Some(text) => Ok(text),
        None => Err(StreamError::InvalidUtf8),
    }
}

} // verus!
