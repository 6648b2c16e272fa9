//! Properties that relate several operations of the library.
use crate::bits::{lemma_lsb_bits_of_value, lemma_msb_bits_of_value, lemma_value_bits};
use crate::decimal::{
    encode_finite_spec, floor_log2, lemma_floor_log2_bounds, lemma_floor_log2_unique,
    decoded_parts, double_parts, lemma_fraction_bits_exact, single_parts, DecimalSerializer, FloatParts,
};
use crate::bitstream::{
    chunk_len, copied, read_value, read_words, stream_bit, stream_bits, value_bits, word,
    words_written, written, Endianness,
};
use crate::strings::{byte_at, bytes_written, first_zero, padded};
use vstd::arithmetic::power2::{
    lemma2_to64, lemma_pow2_adds, lemma_pow2_strictly_increases, pow2,
};
use vstd::prelude::*;
use vstd::utf8::{encode_utf8, encode_utf8_decode_utf8};

verus! {

/// Writing `v < 2^n` in `n` bits (at most 32) and reading `n` bits at the same
/// position gives `v` back, in either bit order.
pub proof fn lemma_raw_round_trip(
    before: Seq<u8>,
    after: Seq<u8>,
    e: Endianness,
    start: int,
    n: int,
    v: u64,
)
    requires
        0 <= n <= 32,
        v < pow2(n as nat),
        written(before, after, e, start, n, v),
    ensures
        read_value(after, e, start, n) == v,
{
    lemma_value_bits(v, n as u64);
    assert(value_bits(e, v, n) == crate::bitstream::stream_bits(after, e, start, n));
}

/// Bytes written one after another read back one by one.
pub proof fn lemma_bytes_read_back(
    before: Seq<u8>,
    after: Seq<u8>,
    e: Endianness,
    start: int,
    data: Seq<u8>,
)
    requires
        bytes_written(before, after, e, start, data),
    ensures
        forall|i: int| 0 <= i < data.len() ==> #[trigger] byte_at(after, e, start, i) == data[i],
{
    assert forall|i: int| 0 <= i < data.len() implies #[trigger] byte_at(after, e, start, i)
        == data[i] by {
        lemma2_to64();
        lemma_value_bits(data[i] as u64, 8);
        assert(crate::bitstream::stream_bits(after, e, start + 8 * i, 8) == value_bits(
            e,
            data[i] as u64,
            8,
        ));
    }
}

proof fn lemma_first_zero_after(
    bytes: Seq<u8>,
    e: Endianness,
    start: int,
    i: int,
    k: int,
    limit: int,
)
    requires
        0 <= i <= k < limit,
        forall|j: int| i <= j < k ==> #[trigger] byte_at(bytes, e, start, j) != 0,
        byte_at(bytes, e, start, k) == 0,
    ensures
        first_zero(bytes, e, start, i, limit) == k,
    decreases k - i,
{
    if i < k {
        lemma_first_zero_after(bytes, e, start, i + 1, k, limit);
    }
}

/// A string without a null character, written null-terminated, is found again by
/// a read that stops at the first zero byte: the bytes before it are the string's
/// UTF-8 bytes, and the only string with those bytes is the string itself.
pub proof fn lemma_text_round_trip(
    before: Seq<u8>,
    after: Seq<u8>,
    e: Endianness,
    start: int,
    s: Seq<char>,
    limit: int,
)
    requires
        forall|i: int| 0 <= i < encode_utf8(s).len() ==> #[trigger] encode_utf8(s)[i] != 0,
        bytes_written(
            before,
            after,
            e,
            start,
            padded(encode_utf8(s), (encode_utf8(s).len() + 1) as nat),
        ),
        encode_utf8(s).len() < limit,
    ensures
        first_zero(after, e, start, 0, limit) == encode_utf8(s).len(),
        Seq::new(encode_utf8(s).len(), |i: int| byte_at(after, e, start, i)) == encode_utf8(s),
        forall|t: Seq<char>| #[trigger] encode_utf8(t) == encode_utf8(s) ==> t == s,
{
    let enc = encode_utf8(s);
    let data = padded(enc, (enc.len() + 1) as nat);
    lemma_bytes_read_back(before, after, e, start, data);
    assert forall|j: int| 0 <= j < enc.len() implies #[trigger] byte_at(after, e, start, j) != 0 by {
        assert(data[j] == enc[j]);
    }
    assert(byte_at(after, e, start, enc.len() as int) == data[enc.len() as int]);
    lemma_first_zero_after(after, e, start, 0, enc.len() as int, limit);
    assert(Seq::new(enc.len(), |i: int| byte_at(after, e, start, i)) =~= enc);
    assert forall|t: Seq<char>| #[trigger] encode_utf8(t) == encode_utf8(s) implies t == s by {
        encode_utf8_decode_utf8(t);
        encode_utf8_decode_utf8(s);
    }
}

/// With a fixed count `n`, a string whose bytes hold a zero is cut at that zero;
/// the whole count of bytes is consumed either way.
pub proof fn lemma_fixed_text_stops_at_zero(
    before: Seq<u8>,
    after: Seq<u8>,
    e: Endianness,
    start: int,
    enc: Seq<u8>,
    n: nat,
    k: int,
)
    requires
        bytes_written(before, after, e, start, padded(enc, n)),
        0 <= k < enc.len(),
        k < n,
        enc[k] == 0,
        forall|j: int| 0 <= j < k ==> #[trigger] enc[j] != 0,
    ensures
        first_zero(after, e, start, 0, n as int) == k,
        Seq::new(k as nat, |i: int| byte_at(after, e, start, i)) == enc.take(k),
{
    let data = padded(enc, n);
    lemma_bytes_read_back(before, after, e, start, data);
    assert forall|j: int| 0 <= j < k implies #[trigger] byte_at(after, e, start, j) != 0 by {
        assert(data[j] == enc[j]);
    }
    assert(byte_at(after, e, start, k) == data[k]);
    lemma_first_zero_after(after, e, start, 0, k, n as int);
    assert(Seq::new(k as nat, |i: int| byte_at(after, e, start, i)) =~= enc.take(k));
}

/// Writing a value as words, least significant first, and reading the same
/// number of words at the same position gives the value back: two words for
/// 64-bit values, four for 128-bit ones.
pub proof fn lemma_words_round_trip(
    before: Seq<u8>,
    after: Seq<u8>,
    e: Endianness,
    start: int,
    count: nat,
    v: u128,
)
    requires
        count == 2 || count == 4,
        count == 2 ==> v < 0x1_0000_0000_0000_0000,
        words_written(before, after, e, start, count, v),
    ensures
        read_words(after, e, start, count) == v,
{
    lemma2_to64();
    assert forall|c: int| 0 <= c < count implies #[trigger] read_value(after, e, start + 32 * c, 32)
        == word(v, c as nat) by {
        let w = word(v, c as nat);
        assert(w <= 0xFFFF_FFFF) by {
            let x = v >> ((32 * c) as u128);
            assert((x & 0xFFFF_FFFFu128) as u64 <= 0xFFFF_FFFF) by (bit_vector);
        }
        lemma_value_bits(w, 32);
        assert(crate::bitstream::stream_bits(after, e, start + 32 * c, 32) == value_bits(e, w, 32));
    }
    let w0 = word(v, 0);
    let w1 = word(v, 1);
    let w2 = word(v, 2);
    let w3 = word(v, 3);
    let r0 = read_value(after, e, start + 32 * 0, 32);
    let r1 = read_value(after, e, start + 32 * 1, 32);
    assert(r0 == w0 && r1 == w1);
    assert(start + 32 * 0 == start && start + 32 * 1 == start + 32);
    if count == 2 {
        assert(read_words(after, e, start + 64, 0) == 0);
        assert(read_words(after, e, start + 32, 1) == r1 + pow2(32) * read_words(after, e, start + 64, 0));
        assert(read_words(after, e, start, 2) == r0 + pow2(32) * read_words(after, e, start + 32, 1));
        assert(w0 as u128 + 0x1_0000_0000u128 * (w1 as u128) == v) by (bit_vector)
            requires
                v < 0x1_0000_0000_0000_0000u128,
                w0 == ((v >> 0u128) & 0xFFFF_FFFFu128) as u64,
                w1 == ((v >> 32u128) & 0xFFFF_FFFFu128) as u64,
        ;
    } else {
        let r2 = read_value(after, e, start + 32 * 2, 32);
        let r3 = read_value(after, e, start + 32 * 3, 32);
        assert(r2 == w2 && r3 == w3);
        assert(start + 32 * 2 == start + 64 && start + 32 * 3 == start + 96);
        assert(read_words(after, e, start + 128, 0) == 0);
        assert(read_words(after, e, start + 96, 1) == r3 + pow2(32) * read_words(after, e, start + 128, 0));
        assert(read_words(after, e, start + 64, 2) == r2 + pow2(32) * read_words(after, e, start + 96, 1));
        assert(read_words(after, e, start + 32, 3) == r1 + pow2(32) * read_words(after, e, start + 64, 2));
        assert(read_words(after, e, start, 4) == r0 + pow2(32) * read_words(after, e, start + 32, 3));
        assert(w0 as u128 + 0x1_0000_0000u128 * (w1 as u128 + 0x1_0000_0000u128 * (w2 as u128
            + 0x1_0000_0000u128 * (w3 as u128))) == v) by (bit_vector)
            requires
                w0 == ((v >> 0u128) & 0xFFFF_FFFFu128) as u64,
                w1 == ((v >> 32u128) & 0xFFFF_FFFFu128) as u64,
                w2 == ((v >> 64u128) & 0xFFFF_FFFFu128) as u64,
                w3 == ((v >> 96u128) & 0xFFFF_FFFFu128) as u64,
        ;
    }
}

/// In the standard double layout (64 bits, 11 of exponent, signed), the general
/// encoding of every finite double other than negative zero, taken apart by
/// `double_parts`, gives back the double's own bits.
pub proof fn lemma_double_layout_is_native(f: DecimalSerializer, bits: u64)
    requires
        f.wf(),
        f.spec_bits() == 64,
        f.spec_exponent_bits() == 11,
        f.spec_signed(),
        (bits as nat / pow2(52)) % pow2(11) != 2047,
        bits != 0x8000_0000_0000_0000,
    ensures
        match double_parts(bits) {
            FloatParts::Finite { negative, significand, exponent } => encode_finite_spec(
                f,
                negative,
                significand as nat,
                exponent as int,
            ) == bits,
            _ => false,
        },
{
    lemma2_to64();
    vstd::arithmetic::power2::lemma2_to64_rest();
    let negative = bits as nat / pow2(63) == 1;
    let field = (bits as nat / pow2(52)) % pow2(11);
    let fraction = bits as nat % pow2(52);
    let b = bits;
    assert(b == (b / 0x8000_0000_0000_0000) * 0x8000_0000_0000_0000 + ((b / 0x10_0000_0000_0000)
        % 0x800) * 0x10_0000_0000_0000 + b % 0x10_0000_0000_0000 && b / 0x8000_0000_0000_0000 <= 1)
        by (bit_vector);
    let sign = if negative {
        pow2(63)
    } else {
        0
    };
    assert(bits as nat == sign + field * pow2(52) + fraction);
    lemma_pow2_adds(52, 1);
    if field != 0 {
        let m = pow2(52) + fraction;
        lemma_floor_log2_unique(m, 52);
        lemma_fraction_bits_exact(fraction, 52);
        assert((m - pow2(52)) as nat == fraction);
    } else if fraction != 0 {
        lemma_floor_log2_bounds(fraction);
        let l = floor_log2(fraction);
        if l >= 52 {
            if l > 52 {
                lemma_pow2_strictly_increases(52, l);
            }
        }
        assert(l < 52);
        lemma_fraction_bits_exact(fraction, 52);
        assert((1 - 1023 - (-1074int)) as nat == 52);
    } else {
        assert(!negative);
    }
}

/// In the standard double layout, a pattern decodes to the very parts that the
/// double with the same bits has: decoding gives back what encoding took in.
pub proof fn lemma_double_decode_is_native(f: DecimalSerializer, bits: u64)
    requires
        f.wf(),
        f.spec_bits() == 64,
        f.spec_exponent_bits() == 11,
        f.spec_signed(),
    ensures
        decoded_parts(f, bits as u128) == double_parts(bits),
{
    lemma2_to64();
    vstd::arithmetic::power2::lemma2_to64_rest();
    let b = bits;
    assert(b / 0x8000_0000_0000_0000 <= 1) by (bit_vector);
    assert((b as nat / pow2(63)) % 2 == b as nat / pow2(63));
}

/// Between two streams of the same bit order, the bits copied by
/// `write_bitstream` are copied verbatim.
pub proof fn lemma_copy_is_verbatim(
    src: Seq<u8>,
    src_start: int,
    before: Seq<u8>,
    after: Seq<u8>,
    e: Endianness,
    start: int,
    n: int,
)
    requires
        0 <= n,
        copied(src, e, src_start, before, after, e, start, n),
    ensures
        stream_bits(after, e, start, n) == stream_bits(src, e, src_start, n),
{
    assert forall|j: int| 0 <= j < n implies #[trigger] stream_bits(after, e, start, n)[j]
        == stream_bits(src, e, src_start, n)[j] by {
        let c = j / 32;
        let o = j % 32;
        let len = chunk_len(n, c);
        assert(0 <= c && 32 * c < n);
        assert(0 <= o < len <= 32);
        let run = stream_bits(src, e, src_start + 32 * c, len);
        assert(stream_bits(after, e, start + 32 * c, len) == value_bits(
            e,
            read_value(src, e, src_start + 32 * c, len) as u64,
            len,
        ));
        match e {
            Endianness::Little => lemma_lsb_bits_of_value(run),
            Endianness::Big => lemma_msb_bits_of_value(run),
        }
        assert(value_bits(e, read_value(src, e, src_start + 32 * c, len) as u64, len) == run);
        assert(stream_bits(after, e, start + 32 * c, len)[o] == stream_bit(after, e, start + j));
        assert(run[o] == stream_bit(src, e, src_start + j));
    }
    assert(stream_bits(after, e, start, n) =~= stream_bits(src, e, src_start, n));
}

/// In the standard single layout (32 bits, 8 of exponent, signed), the general
/// encoding of every finite single other than negative zero, taken apart by
/// `single_parts`, gives back the single's own bits.
pub proof fn lemma_single_layout_is_native(f: DecimalSerializer, bits: u32)
    requires
        f.wf(),
        f.spec_bits() == 32,
        f.spec_exponent_bits() == 8,
        f.spec_signed(),
        (bits as nat / pow2(23)) % pow2(8) != 255,
        bits != 0x8000_0000,
    ensures
        match single_parts(bits) {
            FloatParts::Finite { negative, significand, exponent } => encode_finite_spec(
                f,
                negative,
                significand as nat,
                exponent as int,
            ) == bits,
            _ => false,
        },
{
    lemma2_to64();
    let negative = bits as nat / pow2(31) == 1;
    let field = (bits as nat / pow2(23)) % pow2(8);
    let fraction = bits as nat % pow2(23);
    let b = bits;
    assert(b == (b / 0x8000_0000) * 0x8000_0000 + ((b / 0x80_0000) % 0x100) * 0x80_0000 + b
        % 0x80_0000 && b / 0x8000_0000 <= 1) by (bit_vector);
    let sign = if negative {
        pow2(31)
    } else {
        0
    };
    assert(bits as nat == sign + field * pow2(23) + fraction);
    lemma_pow2_adds(23, 1);
    if field != 0 {
        let m = pow2(23) + fraction;
        lemma_floor_log2_unique(m, 23);
        lemma_fraction_bits_exact(fraction, 23);
        assert((m - pow2(23)) as nat == fraction);
    } else if fraction != 0 {
        lemma_floor_log2_bounds(fraction);
        let l = floor_log2(fraction);
        if l >= 23 {
            if l > 23 {
                lemma_pow2_strictly_increases(23, l);
            }
        }
        assert(l < 23);
        lemma_fraction_bits_exact(fraction, 23);
        assert((1 - 127 - (-149int)) as nat == 23);
    } else {
        assert(!negative);
    }
}

/// In the standard single layout, a pattern decodes to the very parts that the
/// single with the same bits has.
pub proof fn lemma_single_decode_is_native(f: DecimalSerializer, bits: u32)
    requires
        f.wf(),
        f.spec_bits() == 32,
        f.spec_exponent_bits() == 8,
        f.spec_signed(),
    ensures
        decoded_parts(f, bits as u128) == single_parts(bits),
{
    lemma2_to64();
    let b = bits;
    assert(b / 0x8000_0000 <= 1) by (bit_vector);
    assert((b as nat / pow2(31)) % 2 == b as nat / pow2(31));
}

} // verus!
