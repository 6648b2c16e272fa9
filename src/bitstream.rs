//! A bit cursor over a fixed-size byte buffer.
use crate::bits::{
    bit_of, low_mask, lemma_chunk_lsb, lemma_chunk_msb, lemma_join_high, lemma_join_low, lemma_lsb_bound,
    lemma_lsb_concat, lemma_msb_bound, lemma_msb_concat, lemma_pow2_fits_u32, lemma_shl_one, lemma_byte_update,
    lemma_bit_of_masked, lemma_bit_of_shifted, lsb_bits, lsb_value,
    msb_bits, msb_value,
};
use vstd::arithmetic::power2::{
    lemma2_to64, lemma2_to64_rest, lemma_pow2_adds, lemma_pow2_unfold, pow2,
};
use vstd::prelude::*;

verus! {

/// Which end of a byte is filled first.
#[derive(Copy, Clone, Debug, PartialEq, Eq, Structural)]
pub enum Endianness {
    /// The first bits of a value occupy the low-order bits of a byte.
    Little,
    /// The first bits of a value occupy the high-order bits of a byte.
    Big,
}

/// Why a stream operation was refused.
#[derive(Copy, Clone, Debug, PartialEq, Eq, Structural)]
pub enum StreamError {
    /// More than 32 bits were asked of a raw read or write.
    TooManyBits,
    /// Fewer bits are left in the buffer than the operation needs.
    OutOfBounds,
    /// An index or a range lies outside the buffer.
    InvalidRange,
    /// Text handed to the ASCII codec holds a character outside ASCII.
    NotAscii,
    /// Bytes read as text are not valid UTF-8.
    InvalidUtf8,
}

/// Position inside a byte, counted from its least significant bit, of the bit
/// that comes `q`-th in stream order.
pub open spec fn bit_position(e: Endianness, q: int) -> int {
    match e {
        Endianness::Little => q,
        Endianness::Big => 7 - q,
    }
}

/// The `p`-th bit of the buffer in stream order.
pub open spec fn stream_bit(bytes: Seq<u8>, e: Endianness, p: int) -> bool {
    bit_of(bytes[p / 8] as u64, bit_position(e, p % 8))
}

/// The `n` bits of the buffer that start at bit `start`, in stream order.
pub open spec fn stream_bits(bytes: Seq<u8>, e: Endianness, start: int, n: int) -> Seq<bool> {
    Seq::new(n as nat, |j: int| stream_bit(bytes, e, start + j))
}

/// The number that a run of bits in stream order stands for.
pub open spec fn bits_value(e: Endianness, s: Seq<bool>) -> nat {
    match e {
        Endianness::Little => lsb_value(s),
        Endianness::Big => msb_value(s),
    }
}

/// The `n` bits, in stream order, with which `v` is written.
pub open spec fn value_bits(e: Endianness, v: u64, n: int) -> Seq<bool> {
    match e {
        Endianness::Little => lsb_bits(v, 0, n),
        Endianness::Big => msb_bits(v, 0, n),
    }
}

/// What a read of `n` bits at bit `start` returns.
pub open spec fn read_value(bytes: Seq<u8>, e: Endianness, start: int, n: int) -> nat {
    bits_value(e, stream_bits(bytes, e, start, n))
}

/// Word `c` (32 bits, counted from the least significant end) of `v`.
pub open spec fn word(v: u128, c: nat) -> u64 {
    ((v >> ((32 * c) as u128)) & 0xFFFF_FFFFu128) as u64
}

/// `after` is `before` with the `count` words of `v` written from bit `start`,
/// least significant word first.
pub open spec fn words_written(
    before: Seq<u8>,
    after: Seq<u8>,
    e: Endianness,
    start: int,
    count: nat,
    v: u128,
) -> bool {
    &&& after.len() == before.len()
    &&& forall|c: int|
        0 <= c < count ==> #[trigger] stream_bits(after, e, start + 32 * c, 32) == value_bits(
            e,
            word(v, c as nat),
            32,
        )
    &&& forall|p: int|
        0 <= p < before.len() * 8 && !(start <= p < start + 32 * count) ==> #[trigger] stream_bit(
            after,
            e,
            p,
        ) == stream_bit(before, e, p)
}

/// What reads of `count` words from bit `start` combine to, the first word
/// being the least significant.
pub open spec fn read_words(bytes: Seq<u8>, e: Endianness, start: int, count: nat) -> nat
    decreases count,
{
    if count == 0 {
        0
    } else {
        read_value(bytes, e, start, 32) + pow2(32) * read_words(bytes, e, start + 32, (count - 1) as nat)
    }
}

proof fn lemma_words_fit(k: nat)
    requires
        k <= 4,
    ensures
        pow2(32 * k) <= 0x1_0000_0000_0000_0000_0000_0000_0000_0000,
        k < 4 ==> pow2(32 * k) <= 0x1_0000_0000_0000_0000_0000_0000,
{
    lemma2_to64();
    lemma2_to64_rest();
    lemma_pow2_adds(64, 32);
    lemma_pow2_adds(64, 64);
    assert(32 * k == 0 || 32 * k == 32 || 32 * k == 64 || 32 * k == 96 || 32 * k == 128);
}

/// Reading one word more adds it at the top.
proof fn lemma_read_words_push(bytes: Seq<u8>, e: Endianness, start: int, k: nat)
    ensures
        read_words(bytes, e, start, k + 1) == read_words(bytes, e, start, k) + pow2(32 * k)
            * read_value(bytes, e, start + 32 * k, 32),
    decreases k,
{
    if k == 0 {
        lemma2_to64();
        assert(read_words(bytes, e, start + 32, 0) == 0);
        assert(read_words(bytes, e, start, 0) == 0);
        assert(32 * k == 0);
    } else {
        assert(read_words(bytes, e, start, k + 1) == read_value(bytes, e, start, 32) + pow2(32)
            * read_words(bytes, e, start + 32, k));
        assert(read_words(bytes, e, start, k) == read_value(bytes, e, start, 32) + pow2(32)
            * read_words(bytes, e, start + 32, (k - 1) as nat));
        lemma_read_words_push(bytes, e, start + 32, (k - 1) as nat);
        lemma_pow2_adds(32, 32 * (k - 1) as nat);
        assert(32 + 32 * (k - 1) as nat == 32 * k);
        assert(start + 32 + 32 * (k - 1) == start + 32 * k);
        let a = read_words(bytes, e, start + 32, (k - 1) as nat);
        let b = read_value(bytes, e, start + 32 * k, 32);
        assert(pow2(32) * (a + pow2(32 * (k - 1) as nat) * b) == pow2(32) * a + (pow2(32) * pow2(
            32 * (k - 1) as nat,
        )) * b) by (nonlinear_arith);
    }
}

/// Writing word `c` after words `0..c` extends what has been written.
proof fn lemma_words_step(
    b0: Seq<u8>,
    b1: Seq<u8>,
    b2: Seq<u8>,
    e: Endianness,
    start: int,
    c: nat,
    v: u128,
)
    requires
        0 <= start,
        start + 32 * (c + 1) <= b0.len() * 8,
        words_written(b0, b1, e, start, c, v),
        written(b1, b2, e, start + 32 * c, 32, word(v, c)),
    ensures
        words_written(b0, b2, e, start, c + 1, v),
{
    assert forall|k: int| 0 <= k < c + 1 implies #[trigger] stream_bits(b2, e, start + 32 * k, 32)
        == value_bits(e, word(v, k as nat), 32) by {
        if k < c {
            assert forall|j: int| 0 <= j < 32 implies #[trigger] stream_bit(
                b2,
                e,
                start + 32 * k + j,
            ) == stream_bit(b1, e, start + 32 * k + j) by {
                assert(0 <= start + 32 * k + j < b1.len() * 8);
            }
            assert(stream_bits(b2, e, start + 32 * k, 32) =~= stream_bits(b1, e, start + 32 * k, 32));
        }
    }
}

/// A slice bound: a negative one counts back from `len`.
pub open spec fn slice_bound(i: int, len: int) -> int {
    if i < 0 {
        len + i
    } else {
        i
    }
}

/// The length of chunk `c` when `n` bits go 32 at a time.
pub open spec fn chunk_len(n: int, c: int) -> int {
    if n - 32 * c < 32 {
        n - 32 * c
    } else {
        32
    }
}

/// `after` is `before` with `n` bits written from bit `start`, copied chunk by
/// chunk of 32 bits from bit `src_start` of `src`: each chunk is read as a
/// number in `src`'s bit order and written in this bit order.
pub open spec fn copied(
    src: Seq<u8>,
    src_e: Endianness,
    src_start: int,
    before: Seq<u8>,
    after: Seq<u8>,
    e: Endianness,
    start: int,
    n: int,
) -> bool {
    &&& after.len() == before.len()
    &&& forall|c: int|
        0 <= c && 32 * c < n ==> #[trigger] stream_bits(after, e, start + 32 * c, chunk_len(n, c))
            == value_bits(
            e,
            read_value(src, src_e, src_start + 32 * c, chunk_len(n, c)) as u64,
            chunk_len(n, c),
        )
    &&& forall|p: int|
        0 <= p < before.len() * 8 && !(start <= p < start + n) ==> #[trigger] stream_bit(
            after,
            e,
            p,
        ) == stream_bit(before, e, p)
}

/// One more chunk copied.
proof fn lemma_copy_step(
    src: Seq<u8>,
    src_e: Endianness,
    src_start: int,
    before: Seq<u8>,
    mid: Seq<u8>,
    after: Seq<u8>,
    e: Endianness,
    start: int,
    done: int,
    chunk: int,
)
    requires
        0 <= start,
        0 <= done,
        done % 32 == 0,
        1 <= chunk <= 32,
        start + done + chunk <= before.len() * 8,
        copied(src, src_e, src_start, before, mid, e, start, done),
        written(
            mid,
            after,
            e,
            start + done,
            chunk,
            read_value(src, src_e, src_start + done, chunk) as u64,
        ),
    ensures
        copied(src, src_e, src_start, before, after, e, start, done + chunk),
{
    let n = done + chunk;
    assert forall|c: int| 0 <= c && 32 * c < n implies #[trigger] stream_bits(
        after,
        e,
        start + 32 * c,
        chunk_len(n, c),
    ) == value_bits(
        e,
        read_value(src, src_e, src_start + 32 * c, chunk_len(n, c)) as u64,
        chunk_len(n, c),
    ) by {
        if 32 * c < done {
            assert(32 * c + 32 <= done);
            assert(chunk_len(done, c) == 32);
            assert(chunk_len(n, c) == 32);
            assert(stream_bits(mid, e, start + 32 * c, chunk_len(done, c)) == value_bits(
                e,
                read_value(src, src_e, src_start + 32 * c, chunk_len(done, c)) as u64,
                chunk_len(done, c),
            ));
            assert(stream_bits(mid, e, start + 32 * c, 32) == value_bits(
                e,
                read_value(src, src_e, src_start + 32 * c, 32) as u64,
                32,
            ));
            assert forall|j: int| 0 <= j < 32 implies #[trigger] stream_bit(
                after,
                e,
                start + 32 * c + j,
            ) == stream_bit(mid, e, start + 32 * c + j) by {}
            assert(stream_bits(after, e, start + 32 * c, 32) =~= stream_bits(
                mid,
                e,
                start + 32 * c,
                32,
            ));
        } else {
            assert(32 * c == done);
        }
    }
}

/// `v`, an `n`-bit pattern, read as a two's-complement number.
pub open spec fn signed_value(v: nat, n: nat) -> int {
    if n > 0 && v >= pow2((n - 1) as nat) {
        v - pow2(n)
    } else {
        v as int
    }
}

/// The two's-complement reading of an `n`-bit pattern lies in `[-2^(n-1), 2^(n-1))`.
pub proof fn lemma_signed_bound(v: nat, n: nat)
    requires
        1 <= n,
        v < pow2(n),
    ensures
        -pow2((n - 1) as nat) <= signed_value(v, n) < pow2((n - 1) as nat),
{
    lemma_pow2_unfold(n);
}

/// A read of `n` bits yields fewer than `2^n`.
pub proof fn lemma_read_value_bound(bytes: Seq<u8>, e: Endianness, start: int, n: int)
    requires
        0 <= n,
    ensures
        read_value(bytes, e, start, n) < pow2(n as nat),
{
    match e {
        Endianness::Little => lemma_lsb_bound(stream_bits(bytes, e, start, n)),
        Endianness::Big => lemma_msb_bound(stream_bits(bytes, e, start, n)),
    }
}

/// `after` is `before` with the `n` bits at `start` replaced by `v`'s.
pub open spec fn written(
    before: Seq<u8>,
    after: Seq<u8>,
    e: Endianness,
    start: int,
    n: int,
    v: u64,
) -> bool {
    &&& after.len() == before.len()
    &&& stream_bits(after, e, start, n) == value_bits(e, v, n)
    &&& forall|p: int|
        0 <= p < before.len() * 8 && !(start <= p < start + n) ==> #[trigger] stream_bit(
            after,
            e,
            p,
        ) == stream_bit(before, e, p)
}

/// A byte buffer with a bit-granular read/write index.
#[derive(Clone, Debug)]
pub struct BitStream {
    internal: Vec<u8>,
    endianness: Endianness,
    index: usize,
}

proof fn lemma_same_byte(idx: int, j: int)
    requires
        0 <= idx,
        0 <= j,
        idx % 8 + j < 8,
    ensures
        (idx + j) / 8 == idx / 8,
        (idx + j) % 8 == idx % 8 + j,
{
}

proof fn lemma_split_index(idx: usize)
    ensures
        idx & 7 == idx % 8,
        idx >> 3 == idx / 8,
{
    assert(idx & 7 == idx % 8) by (bit_vector);
    assert(idx >> 3 == idx / 8) by (bit_vector);
}

proof fn lemma_byte_in_range(a: int, len: int)
    requires
        0 <= a < len * 8,
    ensures
        0 <= a / 8 < len,
{
}

proof fn lemma_outside_run(a: int, idx: int, k: int)
    requires
        0 <= a,
        0 <= idx,
        a / 8 == idx / 8,
        a < idx || a >= idx + k,
        idx % 8 + k <= 8,
    ensures
        a % 8 < idx % 8 || a % 8 >= idx % 8 + k,
{
}

/// One step of a write: the byte that holds bit `start + i` takes the next
/// `k` bits of `source`.
proof fn lemma_write_step(
    before: Seq<u8>,
    old_bytes: Seq<u8>,
    new_bytes: Seq<u8>,
    e: Endianness,
    start: int,
    i: int,
    k: u64,
    bits: int,
    source: u64,
    write_bits: u64,
    dest_shift: u64,
)
    requires
        0 <= start,
        0 <= i,
        1 <= k,
        (start + i) % 8 + k <= 8,
        i + k <= bits <= 32,
        start + bits <= before.len() * 8,
        old_bytes.len() == before.len(),
        new_bytes == old_bytes.update(
            (start + i) / 8,
            (((old_bytes[(start + i) / 8] as u64) & !(low_mask(k) << dest_shift)) | (write_bits
                << dest_shift)) as u8,
        ),
        e == Endianness::Little ==> dest_shift == (start + i) % 8 && write_bits == (source >> (
        i as u64)) & low_mask(k),
        e == Endianness::Big ==> dest_shift == 8 - (start + i) % 8 - k && write_bits == (source
            >> ((bits - i - k) as u64)) & low_mask(k),
        forall|j: int|
            0 <= j < i ==> #[trigger] stream_bit(old_bytes, e, start + j) == value_bits(
                e,
                source,
                bits,
            )[j],
        forall|p: int|
            0 <= p < before.len() * 8 && !(start <= p < start + i) ==> #[trigger] stream_bit(
                old_bytes,
                e,
                p,
            ) == stream_bit(before, e, p),
    ensures
        forall|j: int|
            0 <= j < i + k ==> #[trigger] stream_bit(new_bytes, e, start + j) == value_bits(
                e,
                source,
                bits,
            )[j],
        forall|p: int|
            0 <= p < before.len() * 8 && !(start <= p < start + i + k) ==> #[trigger] stream_bit(
                new_bytes,
                e,
                p,
            ) == stream_bit(before, e, p),
{
    let idx = start + i;
    let byte_offset = idx / 8;
    let bit_offset = idx % 8;
    let old_byte = old_bytes[byte_offset];
    let new_byte = new_bytes[byte_offset];
    lemma_byte_in_range(idx, before.len() as int);
    lemma_shl_one(k);
    assert(write_bits < pow2(k as nat)) by {
        let x = if e == Endianness::Little {
            source >> (i as u64)
        } else {
            source >> ((bits - i - k) as u64)
        };
        assert(write_bits == x & low_mask(k));
        assert(x & (((1u64 << k) - 1u64) as u64) < (1u64 << k)) by (bit_vector)
            requires
                k < 64,
        ;
    }
    assert forall|j: int| 0 <= j < i + k implies #[trigger] stream_bit(new_bytes, e, start + j)
        == value_bits(e, source, bits)[j] by {
        if j >= i {
            let q = j - i;
            lemma_same_byte(idx, q);
            let t = bit_position(e, bit_offset + q);
            lemma_byte_update(old_byte, write_bits, dest_shift, k, t as u64);
            match e {
                Endianness::Big => {
                    lemma_bit_of_masked(source >> ((bits - i - k) as u64), k, (k - 1 - q) as u64);
                    lemma_bit_of_shifted(source, (bits - i - k) as u64, (k - 1 - q) as u64);
                },
                Endianness::Little => {
                    lemma_bit_of_masked(source >> (i as u64), k, q as u64);
                    lemma_bit_of_shifted(source, i as u64, q as u64);
                },
            }
        } else {
            lemma_byte_in_range(start + j, before.len() as int);
            if (start + j) / 8 == byte_offset {
                lemma_outside_run(start + j, idx, k as int);
                lemma_byte_update(
                    old_byte,
                    write_bits,
                    dest_shift,
                    k,
                    bit_position(e, (start + j) % 8) as u64,
                );
            }
            assert(stream_bit(new_bytes, e, start + j) == stream_bit(old_bytes, e, start + j));
        }
    }
    assert forall|p: int|
        0 <= p < before.len() * 8 && !(start <= p < start + i + k) implies #[trigger] stream_bit(
        new_bytes,
        e,
        p,
    ) == stream_bit(before, e, p) by {
        lemma_byte_in_range(p, before.len() as int);
        if p / 8 == byte_offset {
            lemma_outside_run(p, idx, k as int);
            lemma_byte_update(old_byte, write_bits, dest_shift, k, bit_position(e, p % 8) as u64);
        }
        assert(stream_bit(new_bytes, e, p) == stream_bit(old_bytes, e, p));
    }
}

impl BitStream {
    /// The buffer's bytes.
    pub closed spec fn spec_bytes(&self) -> Seq<u8> {
        self.internal@
    }

    /// The index, in bits.
    pub closed spec fn spec_index(&self) -> nat {
        self.index as nat
    }

    /// The bit order in use.
    pub closed spec fn spec_endianness(&self) -> Endianness {
        self.endianness
    }

    /// The buffer's length in bits.
    pub open spec fn spec_bit_length(&self) -> int {
        self.spec_bytes().len() * 8 as int
    }

    /// How many bits are left after the index.
    pub open spec fn spec_bits_left(&self) -> int {
        self.spec_bit_length() - self.spec_index()
    }

    /// The index lies within the buffer, whose length in bits fits in `usize`.
    pub open spec fn wf(&self) -> bool {
        &&& self.spec_bit_length() <= usize::MAX
        &&& self.spec_index() <= self.spec_bit_length()
    }

    /// Creates a zero-filled stream of `length` bytes, little-endian, index 0.
    pub fn new(length: usize) -> (r: BitStream)
        requires
            length * 8 <= usize::MAX,
        ensures
            r.wf(),
            r.spec_bytes() == Seq::new(length as nat, |i: int| 0u8),
            r.spec_index() == 0,
            r.spec_endianness() == Endianness::Little,
    {
        let mut internal: Vec<u8> = Vec::new();
        let mut i: usize = 0;
        while i < length
            invariant
                i <= length,
                internal@ == Seq::new(i as nat, |k: int| 0u8),
            decreases length - i,
        {
            internal.push(0u8);
            i = i + 1;
            assert(internal@ =~= Seq::new(i as nat, |k: int| 0u8));
        }
        BitStream { internal, endianness: Endianness::Little, index: 0 }
    }

    /// Creates a little-endian stream over a copy of `bytes`, index 0.
    pub fn from_bytes(bytes: &[u8]) -> (r: BitStream)
        requires
            bytes@.len() * 8 <= usize::MAX,
        ensures
            r.wf(),
            r.spec_bytes() == bytes@,
            r.spec_index() == 0,
            r.spec_endianness() == Endianness::Little,
    {
        BitStream { internal: vstd::slice::slice_to_vec(bytes), endianness: Endianness::Little, index: 0 }
    }

    /// A copy of the buffer's bytes.
    pub fn to_bytes(&self) -> (r: Vec<u8>)
        ensures
            r@ == self.spec_bytes(),
    {
        self.internal.clone()
    }

    /// Moves the index to bit `index`, which must lie inside the buffer.
    pub fn set_index(&mut self, index: usize) -> (r: Result<(), StreamError>)
        requires
            old(self).wf(),
        ensures
            final(self).wf(),
            final(self).spec_bytes() == old(self).spec_bytes(),
            final(self).spec_endianness() == old(self).spec_endianness(),
            r is Ok <==> index < old(self).spec_bit_length(),
            r is Ok ==> final(self).spec_index() == index,
            r is Err ==> r == Err::<(), StreamError>(StreamError::InvalidRange) && *final(self)
                == *old(self),
    {
        if index < self.internal.len() * 8 {
            self.index = index;
            Ok(())
        } else {
            Err(StreamError::InvalidRange)
        }
    }

    /// Selects the bit order of the operations that follow.
    pub fn set_endianness(&mut self, endianness: Endianness)
        requires
            old(self).wf(),
        ensures
            final(self).wf(),
            final(self).spec_bytes() == old(self).spec_bytes(),
            final(self).spec_index() == old(self).spec_index(),
            final(self).spec_endianness() == endianness,
    {
        self.endianness = endianness;
    }

    /// The buffer's length in bytes.
    pub fn byte_length(&self) -> (r: usize)
        ensures
            r == self.spec_bytes().len(),
    {
        self.internal.len()
    }

    /// The index, in bits.
    pub fn get_index(&self) -> (r: usize)
        ensures
            r == self.spec_index(),
    {
        self.index
    }

    /// The bit order in use.
    pub fn get_endianness(&self) -> (r: Endianness)
        ensures
            r == self.spec_endianness(),
    {
        self.endianness
    }

    /// How many bits are left after the index.
    pub fn bits_left(&self) -> (r: usize)
        requires
            self.wf(),
        ensures
            r == self.spec_bits_left(),
    {
        self.internal.len() * 8 - self.index
    }

    /// Reads the next `bits` bits (at most 32) as an unsigned number.
    pub fn read_bits(&mut self, bits: usize) -> (r: Result<u32, StreamError>)
        requires
            old(self).wf(),
        ensures
            final(self).wf(),
            final(self).spec_bytes() == old(self).spec_bytes(),
            final(self).spec_endianness() == old(self).spec_endianness(),
            r is Ok <==> bits <= 32 && bits <= old(self).spec_bits_left(),
            bits > 32 ==> r == Err::<u32, StreamError>(StreamError::TooManyBits),
            bits <= 32 && bits > old(self).spec_bits_left() ==> r == Err::<u32, StreamError>(
                StreamError::OutOfBounds,
            ),
            r is Err ==> *final(self) == *old(self),
            r is Ok ==> r->Ok_0 == read_value(
                old(self).spec_bytes(),
                old(self).spec_endianness(),
                old(self).spec_index() as int,
                bits as int,
            ) && final(self).spec_index() == old(self).spec_index() + bits,
    {
        if bits > 32 {
            return Err(StreamError::TooManyBits);
        }
        if bits > self.internal.len() * 8 - self.index {
            return Err(StreamError::OutOfBounds);
        }
        let ghost bytes = self.internal@;
        let ghost start = self.index as int;
        let e = self.endianness;
        let mut value: u64 = 0;
        let mut i: usize = 0;
        proof {
            assert(stream_bits(bytes, e, start, 0) =~= Seq::<bool>::empty());
            vstd::arithmetic::power2::lemma2_to64();
        }
        while i < bits
            invariant
                self.wf(),
                self.internal@ == bytes,
                self.endianness == e,
                i <= bits <= 32,
                self.index == start + i,
                start + bits <= bytes.len() * 8,
                value == bits_value(e, stream_bits(bytes, e, start, i as int)),
                value < pow2(i as nat),
            decreases bits - i,
        {
            let remaining = bits - i;
            let bit_offset = self.index & 7;
            let byte_offset = self.index >> 3;
            proof {
                lemma_split_index(self.index);
            }
            let byte = self.internal[byte_offset];
            // how many bits can be read from the current byte
            let to_read: usize = if remaining < 8 - bit_offset {
                remaining
            } else {
                8 - bit_offset
            };
            proof {
                lemma_shl_one(to_read as u64);
                vstd::arithmetic::power2::lemma_pow2_pos(to_read as nat);
            }
            let mask: u64 = (1u64 << to_read as u64) - 1;
            let ghost chunk_bits: Seq<bool>;
            let ghost prev = value;
            match e {
                Endianness::Big => {
                    let shift = (8 - to_read - bit_offset) as u64;
                    let chunk = ((byte as u64) >> shift) & mask;
                    proof {
                        lemma_chunk_msb(byte as u64, shift, to_read as u64);
                        chunk_bits = msb_bits(byte as u64, shift as int, to_read as int);
                        lemma_msb_bound(chunk_bits);
                        lemma_join_high(value, chunk, i as u64, to_read as u64);
                    }
                    value = (value << to_read as u64) | chunk;
                },
                Endianness::Little => {
                    let chunk = ((byte as u64) >> bit_offset as u64) & mask;
                    proof {
                        lemma_chunk_lsb(byte as u64, bit_offset as u64, to_read as u64);
                        chunk_bits = lsb_bits(byte as u64, bit_offset as int, to_read as int);
                        lemma_lsb_bound(chunk_bits);
                        lemma_join_low(value, chunk, i as u64, to_read as u64);
                    }
                    value = value | (chunk << i as u64);
                },
            }
            proof {
                assert forall|j: int| 0 <= j < to_read implies #[trigger] stream_bit(
                    bytes,
                    e,
                    start + i + j,
                ) == chunk_bits[j] by {
                    lemma_same_byte(self.index as int, j);
                }
                assert(stream_bits(bytes, e, start, i + to_read) =~= stream_bits(
                    bytes,
                    e,
                    start,
                    i as int,
                ) + chunk_bits);
                let prev_bits = stream_bits(bytes, e, start, i as int);
                match e {
                    Endianness::Big => {
                        lemma_msb_concat(prev_bits, chunk_bits);
                        assert(value == prev * pow2(to_read as nat) + msb_value(chunk_bits));
                    },
                    Endianness::Little => {
                        lemma_lsb_concat(prev_bits, chunk_bits);
                        assert(value == prev + lsb_value(chunk_bits) * pow2(i as nat));
                        assert(lsb_value(chunk_bits) * pow2(i as nat) == pow2(prev_bits.len())
                            * lsb_value(chunk_bits)) by (nonlinear_arith)
                            requires
                                prev_bits.len() == i,
                        ;
                    },
                }
            }
            self.index = self.index + to_read;
            i = i + to_read;
        }
        proof {
            lemma_pow2_fits_u32(bits as nat);
        }
        Ok(value as u32)
    }

    /// Writes the `bits` low bits (at most 32) of `value`.
    pub fn write_bits_us(&mut self, value: u32, bits: usize) -> (r: Result<(), StreamError>)
        requires
            old(self).wf(),
        ensures
            final(self).wf(),
            final(self).spec_endianness() == old(self).spec_endianness(),
            r is Ok <==> bits <= 32 && bits <= old(self).spec_bits_left(),
            bits > 32 ==> r == Err::<(), StreamError>(StreamError::TooManyBits),
            bits <= 32 && bits > old(self).spec_bits_left() ==> r == Err::<(), StreamError>(
                StreamError::OutOfBounds,
            ),
            r is Err ==> *final(self) == *old(self),
            r is Ok ==> written(
                old(self).spec_bytes(),
                final(self).spec_bytes(),
                old(self).spec_endianness(),
                old(self).spec_index() as int,
                bits as int,
                value as u64,
            ) && final(self).spec_index() == old(self).spec_index() + bits,
    {
        if bits > 32 {
            return Err(StreamError::TooManyBits);
        }
        if bits > self.internal.len() * 8 - self.index {
            return Err(StreamError::OutOfBounds);
        }
        let ghost before = self.internal@;
        let ghost start = self.index as int;
        let e = self.endianness;
        let source = value as u64;
        let mut val: u64 = source;
        let mut i: usize = 0;
        proof {
            assert(source >> 0u64 == source) by (bit_vector);
        }
        while i < bits
            invariant
                self.wf(),
                self.internal@.len() == before.len(),
                self.endianness == e,
                i <= bits <= 32,
                0 <= start,
                self.index == start + i,
                start + bits <= before.len() * 8,
                e == Endianness::Little ==> val == source >> (i as u64),
                forall|j: int|
                    0 <= j < i ==> #[trigger] stream_bit(self.internal@, e, start + j)
                        == value_bits(e, source, bits as int)[j],
                forall|p: int|
                    0 <= p < before.len() * 8 && !(start <= p < start + i) ==> #[trigger] stream_bit(
                        self.internal@,
                        e,
                        p,
                    ) == stream_bit(before, e, p),
            decreases bits - i,
        {
            let remaining = bits - i;
            let bit_offset = self.index & 7;
            let byte_offset = self.index >> 3;
            proof {
                lemma_split_index(self.index);
            }
            // how many bits can be written to the current byte
            let to_write: usize = if remaining < 8 - bit_offset {
                remaining
            } else {
                8 - bit_offset
            };
            proof {
                lemma_shl_one(to_write as u64);
                vstd::arithmetic::power2::lemma_pow2_pos(to_write as nat);
            }
            let mask: u64 = (1u64 << to_write as u64) - 1;
            let write_bits: u64;
            let dest_shift: u64;
            match e {
                Endianness::Big => {
                    // take the bits from the high end of what is left
                    write_bits = (source >> (bits - i - to_write) as u64) & mask;
                    dest_shift = (8 - bit_offset - to_write) as u64;
                },
                Endianness::Little => {
                    write_bits = val & mask;
                    val = val >> to_write as u64;
                    dest_shift = bit_offset as u64;
                },
            }
            let ghost old_bytes = self.internal@;
            let old_byte = self.internal[byte_offset];
            let dest_mask = !(mask << dest_shift);
            let new_byte = #[verifier::truncate] ((((old_byte as u64) & dest_mask) | (write_bits
                << dest_shift)) as u8);
            self.internal.set(byte_offset, new_byte);
            proof {
                lemma_write_step(
                    before,
                    old_bytes,
                    self.internal@,
                    e,
                    start,
                    i as int,
                    to_write as u64,
                    bits as int,
                    source,
                    write_bits,
                    dest_shift,
                );
                if e == Endianness::Little {
                    assert(val == source >> ((i + to_write) as u64)) by (bit_vector)
                        requires
                            val == (source >> (i as u64)) >> (to_write as u64),
                            i + to_write <= 32,
                    ;
                }
            }
            self.index = self.index + to_write;
            i = i + to_write;
        }
        proof {
            assert(stream_bits(self.internal@, e, start, bits as int) =~= value_bits(
                e,
                source,
                bits as int,
            ));
        }
        Ok(())
    }

    /// The number that a read of `n` bits at the index returns.
    pub open spec fn next_value(&self, n: int) -> nat {
        read_value(self.spec_bytes(), self.spec_endianness(), self.spec_index() as int, n)
    }

    /// `after` is `self` with its index moved `n` bits on, and nothing else changed.
    pub open spec fn advanced(&self, after: &BitStream, n: int) -> bool {
        &&& after.wf()
        &&& after.spec_bytes() == self.spec_bytes()
        &&& after.spec_endianness() == self.spec_endianness()
        &&& after.spec_index() == self.spec_index() + n
    }

    /// `after` is `self` with the `n` low bits of `v` written at the index, and the
    /// index moved past them.
    pub open spec fn wrote(&self, after: &BitStream, n: int, v: u64) -> bool {
        &&& after.wf()
        &&& after.spec_endianness() == self.spec_endianness()
        &&& written(
            self.spec_bytes(),
            after.spec_bytes(),
            self.spec_endianness(),
            self.spec_index() as int,
            n,
            v,
        )
        &&& after.spec_index() == self.spec_index() + n
    }

    /// Reads the next `bits` bits (at most 32) as a two's-complement number.
    pub fn read_bits_signed(&mut self, bits: usize) -> (r: Result<i32, StreamError>)
        requires
            old(self).wf(),
        ensures
            final(self).wf(),
            r is Ok <==> bits <= 32 && bits <= old(self).spec_bits_left(),
            bits > 32 ==> r == Err::<i32, StreamError>(StreamError::TooManyBits),
            bits <= 32 && bits > old(self).spec_bits_left() ==> r == Err::<i32, StreamError>(
                StreamError::OutOfBounds,
            ),
            r is Err ==> *final(self) == *old(self),
            r is Ok ==> r->Ok_0 == signed_value(old(self).next_value(bits as int), bits as nat)
                && old(self).advanced(final(self), bits as int),
    {
        let value = match self.read_bits(bits) {
            Ok(v) => v,
            Err(err) => return Err(err),
        };
        proof {
            lemma_read_value_bound(
                old(self).spec_bytes(),
                old(self).spec_endianness(),
                old(self).spec_index() as int,
                bits as int,
            );
            lemma_shl_one(bits as u64);
            vstd::arithmetic::power2::lemma2_to64();
        }
        if bits > 0 && bits < 32 && (value >> (bits - 1) as u32) & 1 == 1 {
            proof {
                let n = bits as u32;
                assert(1u32 << n >= 1) by (bit_vector)
                    requires
                        n < 32,
                ;
            }
            let extended = value | !((1u32 << bits as u32) - 1);
            proof {
                lemma_pow2_unfold(bits as nat);
                lemma_shl_one((bits - 1) as u64);
                let n = bits as u32;
                assert((value as u64) < (1u64 << (n as u64)));
                assert((value >> (n - 1) as u32) & 1 == 1 ==> value as u64 >= (1u64 << ((n - 1) as u32 as u64)))
                    by (bit_vector)
                    requires
                        0 < n < 32,
                ;
                assert((extended as i32) as int == value as int - (1u64 << (n as u64)) as int)
                    by (bit_vector)
                    requires
                        extended == value | !(((1u32 << n) - 1u32) as u32),
                        (value as u64) < (1u64 << (n as u64)),
                        0 < n < 32,
                ;
            }
            Ok(#[verifier::truncate] (extended as i32))
        } else {
            proof {
                if bits == 32 {
                    assert((value as i32) as int == if value >= 0x8000_0000 {
                        value as int - 0x1_0000_0000
                    } else {
                        value as int
                    }) by (bit_vector);
                } else if bits > 0 {
                    lemma_pow2_unfold(bits as nat);
                    lemma_shl_one((bits - 1) as u64);
                    let n = bits as u32;
                    assert((value >> (n - 1) as u32) & 1 != 1 ==> (value as u64) < (1u64 << ((n - 1) as u32 as u64)))
                        by (bit_vector)
                        requires
                            0 < n < 32,
                            (value as u64) < (1u64 << (n as u64)),
                    ;
                }
            }
            Ok(#[verifier::truncate] (value as i32))
        }
    }

    /// Writes the `bits` low bits (at most 32) of the two's-complement form of `value`.
    pub fn write_bits(&mut self, value: i32, bits: usize) -> (r: Result<(), StreamError>)
        requires
            old(self).wf(),
        ensures
            final(self).wf(),
            r is Ok <==> bits <= 32 && bits <= old(self).spec_bits_left(),
            bits > 32 ==> r == Err::<(), StreamError>(StreamError::TooManyBits),
            bits <= 32 && bits > old(self).spec_bits_left() ==> r == Err::<(), StreamError>(
                StreamError::OutOfBounds,
            ),
            r is Err ==> *final(self) == *old(self),
            r is Ok ==> old(self).wrote(final(self), bits as int, (value as u32) as u64),
    {
        self.write_bits_us(value as u32, bits)
    }

    /// Writes a boolean as one bit.
    pub fn write_boolean(&mut self, value: bool) -> (r: Result<(), StreamError>)
        requires
            old(self).wf(),
        ensures
            final(self).wf(),
            r is Ok <==> 1 <= old(self).spec_bits_left(),
            r is Err ==> r == Err::<(), StreamError>(StreamError::OutOfBounds) && *final(self)
                == *old(self),
            r is Ok ==> old(self).wrote(final(self), 1, if value { 1 } else { 0 }),
    {
        self.write_bits_us(if value { 1u32 } else { 0u32 }, 1)
    }

    /// Reads one bit as a boolean.
    pub fn read_boolean(&mut self) -> (r: Result<bool, StreamError>)
        requires
            old(self).wf(),
        ensures
            final(self).wf(),
            r is Ok <==> 1 <= old(self).spec_bits_left(),
            r is Err ==> r == Err::<bool, StreamError>(StreamError::OutOfBounds) && *final(self)
                == *old(self),
            r is Ok ==> r->Ok_0 == (old(self).next_value(1) == 1) && old(self).advanced(
                final(self),
                1,
            ),
    {
        match self.read_bits(1) {
            Ok(v) => Ok(v == 1),
            Err(err) => Err(err),
        }
    }

    /// Writes the low four bits of `value`.
    pub fn write_int4(&mut self, value: i8) -> (r: Result<(), StreamError>)
        requires
            old(self).wf(),
        ensures
            final(self).wf(),
            r is Ok <==> 4 <= old(self).spec_bits_left(),
            r is Err ==> r == Err::<(), StreamError>(StreamError::OutOfBounds) && *final(self)
                == *old(self),
            r is Ok ==> old(self).wrote(final(self), 4, ((value as u8) & 0b1111) as u64),
    {
        let pattern: u32 = (value & 0b1111) as u32;
        proof {
            assert(((value & 0b1111) as u32) as u64 == ((value as u8) & 0b1111) as u64) by (bit_vector);
        }
        self.write_bits_us(pattern, 4)
    }

    /// Reads four bits as a two's-complement number.
    pub fn read_int4(&mut self) -> (r: Result<i8, StreamError>)
        requires
            old(self).wf(),
        ensures
            final(self).wf(),
            r is Ok <==> 4 <= old(self).spec_bits_left(),
            r is Err ==> r == Err::<i8, StreamError>(StreamError::OutOfBounds) && *final(self)
                == *old(self),
            r is Ok ==> r->Ok_0 == signed_value(old(self).next_value(4), 4)
                && old(self).advanced(final(self), 4),
    {
        match self.read_bits_signed(4) {
            Ok(v) => {
                proof {
                    lemma_read_value_bound(
                        old(self).spec_bytes(),
                        old(self).spec_endianness(),
                        old(self).spec_index() as int,
                        4,
                    );
                    lemma_signed_bound(old(self).next_value(4), 4);
                    vstd::arithmetic::power2::lemma2_to64();
                }
                Ok(v as i8)
            },
            Err(err) => Err(err),
        }
    }

    /// Writes the low four bits of `value`.
    pub fn write_uint4(&mut self, value: u8) -> (r: Result<(), StreamError>)
        requires
            old(self).wf(),
        ensures
            final(self).wf(),
            r is Ok <==> 4 <= old(self).spec_bits_left(),
            r is Err ==> r == Err::<(), StreamError>(StreamError::OutOfBounds) && *final(self)
                == *old(self),
            r is Ok ==> old(self).wrote(final(self), 4, (value & 0b1111) as u64),
    {
        let pattern: u32 = (value & 0b1111) as u32;
        self.write_bits_us(pattern, 4)
    }

    /// Reads four bits as an unsigned number.
    pub fn read_uint4(&mut self) -> (r: Result<u8, StreamError>)
        requires
            old(self).wf(),
        ensures
            final(self).wf(),
            r is Ok <==> 4 <= old(self).spec_bits_left(),
            r is Err ==> r == Err::<u8, StreamError>(StreamError::OutOfBounds) && *final(self)
                == *old(self),
            r is Ok ==> r->Ok_0 == old(self).next_value(4) && old(self).advanced(final(self), 4),
    {
        match self.read_bits(4) {
            Ok(v) => {
                proof {
                    lemma_read_value_bound(
                        old(self).spec_bytes(),
                        old(self).spec_endianness(),
                        old(self).spec_index() as int,
                        4,
                    );
                    vstd::arithmetic::power2::lemma2_to64();
                }
                Ok(v as u8)
            },
            Err(err) => Err(err),
        }
    }

    /// Writes `value` in eight bits, two's complement.
    pub fn write_int8(&mut self, value: i8) -> (r: Result<(), StreamError>)
        requires
            old(self).wf(),
        ensures
            final(self).wf(),
            r is Ok <==> 8 <= old(self).spec_bits_left(),
            r is Err ==> r == Err::<(), StreamError>(StreamError::OutOfBounds) && *final(self)
                == *old(self),
            r is Ok ==> old(self).wrote(final(self), 8, (value as u8) as u64),
    {
        let pattern: u32 = (value as u32) & 0xFF;
        proof {
            assert(((value as u32) & 0xFF) as u64 == (value as u8) as u64) by (bit_vector);
        }
        self.write_bits_us(pattern, 8)
    }

    /// Reads eight bits as a two's-complement number.
    pub fn read_int8(&mut self) -> (r: Result<i8, StreamError>)
        requires
            old(self).wf(),
        ensures
            final(self).wf(),
            r is Ok <==> 8 <= old(self).spec_bits_left(),
            r is Err ==> r == Err::<i8, StreamError>(StreamError::OutOfBounds) && *final(self)
                == *old(self),
            r is Ok ==> r->Ok_0 == signed_value(old(self).next_value(8), 8)
                && old(self).advanced(final(self), 8),
    {
        match self.read_bits_signed(8) {
            Ok(v) => {
                proof {
                    lemma_read_value_bound(
                        old(self).spec_bytes(),
                        old(self).spec_endianness(),
                        old(self).spec_index() as int,
                        8,
                    );
                    lemma_signed_bound(old(self).next_value(8), 8);
                    vstd::arithmetic::power2::lemma2_to64();
                }
                Ok(v as i8)
            },
            Err(err) => Err(err),
        }
    }

    /// Writes `value` in eight bits.
    pub fn write_uint8(&mut self, value: u8) -> (r: Result<(), StreamError>)
        requires
            old(self).wf(),
        ensures
            final(self).wf(),
            r is Ok <==> 8 <= old(self).spec_bits_left(),
            r is Err ==> r == Err::<(), StreamError>(StreamError::OutOfBounds) && *final(self)
                == *old(self),
            r is Ok ==> old(self).wrote(final(self), 8, value as u64),
    {
        let pattern: u32 = value as u32;
        self.write_bits_us(pattern, 8)
    }

    /// Reads eight bits as an unsigned number.
    pub fn read_uint8(&mut self) -> (r: Result<u8, StreamError>)
        requires
            old(self).wf(),
        ensures
            final(self).wf(),
            r is Ok <==> 8 <= old(self).spec_bits_left(),
            r is Err ==> r == Err::<u8, StreamError>(StreamError::OutOfBounds) && *final(self)
                == *old(self),
            r is Ok ==> r->Ok_0 == old(self).next_value(8) && old(self).advanced(final(self), 8),
    {
        match self.read_bits(8) {
            Ok(v) => {
                proof {
                    lemma_read_value_bound(
                        old(self).spec_bytes(),
                        old(self).spec_endianness(),
                        old(self).spec_index() as int,
                        8,
                    );
                    vstd::arithmetic::power2::lemma2_to64();
                }
                Ok(v as u8)
            },
            Err(err) => Err(err),
        }
    }

    /// Writes `value` in sixteen bits, two's complement.
    pub fn write_int16(&mut self, value: i16) -> (r: Result<(), StreamError>)
        requires
            old(self).wf(),
        ensures
            final(self).wf(),
            r is Ok <==> 16 <= old(self).spec_bits_left(),
            r is Err ==> r == Err::<(), StreamError>(StreamError::OutOfBounds) && *final(self)
                == *old(self),
            r is Ok ==> old(self).wrote(final(self), 16, (value as u16) as u64),
    {
        let pattern: u32 = (value as u32) & 0xFFFF;
        proof {
            assert(((value as u32) & 0xFFFF) as u64 == (value as u16) as u64) by (bit_vector);
        }
        self.write_bits_us(pattern, 16)
    }

    /// Reads sixteen bits as a two's-complement number.
    pub fn read_int16(&mut self) -> (r: Result<i16, StreamError>)
        requires
            old(self).wf(),
        ensures
            final(self).wf(),
            r is Ok <==> 16 <= old(self).spec_bits_left(),
            r is Err ==> r == Err::<i16, StreamError>(StreamError::OutOfBounds) && *final(self)
                == *old(self),
            r is Ok ==> r->Ok_0 == signed_value(old(self).next_value(16), 16)
                && old(self).advanced(final(self), 16),
    {
        match self.read_bits_signed(16) {
            Ok(v) => {
                proof {
                    lemma_read_value_bound(
                        old(self).spec_bytes(),
                        old(self).spec_endianness(),
                        old(self).spec_index() as int,
                        16,
                    );
                    lemma_signed_bound(old(self).next_value(16), 16);
                    vstd::arithmetic::power2::lemma2_to64();
                }
                Ok(v as i16)
            },
            Err(err) => Err(err),
        }
    }

    /// Writes `value` in sixteen bits.
    pub fn write_uint16(&mut self, value: u16) -> (r: Result<(), StreamError>)
        requires
            old(self).wf(),
        ensures
            final(self).wf(),
            r is Ok <==> 16 <= old(self).spec_bits_left(),
            r is Err ==> r == Err::<(), StreamError>(StreamError::OutOfBounds) && *final(self)
                == *old(self),
            r is Ok ==> old(self).wrote(final(self), 16, value as u64),
    {
        let pattern: u32 = value as u32;
        self.write_bits_us(pattern, 16)
    }

    /// Reads sixteen bits as an unsigned number.
    pub fn read_uint16(&mut self) -> (r: Result<u16, StreamError>)
        requires
            old(self).wf(),
        ensures
            final(self).wf(),
            r is Ok <==> 16 <= old(self).spec_bits_left(),
            r is Err ==> r == Err::<u16, StreamError>(StreamError::OutOfBounds) && *final(self)
                == *old(self),
            r is Ok ==> r->Ok_0 == old(self).next_value(16) && old(self).advanced(final(self), 16),
    {
        match self.read_bits(16) {
            Ok(v) => {
                proof {
                    lemma_read_value_bound(
                        old(self).spec_bytes(),
                        old(self).spec_endianness(),
                        old(self).spec_index() as int,
                        16,
                    );
                    vstd::arithmetic::power2::lemma2_to64();
                }
                Ok(v as u16)
            },
            Err(err) => Err(err),
        }
    }

    /// Writes `value` in 32 bits, two's complement.
    pub fn write_int32(&mut self, value: i32) -> (r: Result<(), StreamError>)
        requires
            old(self).wf(),
        ensures
            final(self).wf(),
            r is Ok <==> 32 <= old(self).spec_bits_left(),
            r is Err ==> r == Err::<(), StreamError>(StreamError::OutOfBounds) && *final(self)
                == *old(self),
            r is Ok ==> old(self).wrote(final(self), 32, (value as u32) as u64),
    {
        let pattern: u32 = value as u32;
        self.write_bits_us(pattern, 32)
    }

    /// Reads 32 bits as a two's-complement number.
    pub fn read_int32(&mut self) -> (r: Result<i32, StreamError>)
        requires
            old(self).wf(),
        ensures
            final(self).wf(),
            r is Ok <==> 32 <= old(self).spec_bits_left(),
            r is Err ==> r == Err::<i32, StreamError>(StreamError::OutOfBounds) && *final(self)
                == *old(self),
            r is Ok ==> r->Ok_0 == signed_value(old(self).next_value(32), 32)
                && old(self).advanced(final(self), 32),
    {
        match self.read_bits_signed(32) {
            Ok(v) => {
                proof {
                    lemma_read_value_bound(
                        old(self).spec_bytes(),
                        old(self).spec_endianness(),
                        old(self).spec_index() as int,
                        32,
                    );
                    lemma_signed_bound(old(self).next_value(32), 32);
                    vstd::arithmetic::power2::lemma2_to64();
                }
                Ok(v as i32)
            },
            Err(err) => Err(err),
        }
    }

    /// Writes `value` in 32 bits.
    pub fn write_uint32(&mut self, value: u32) -> (r: Result<(), StreamError>)
        requires
            old(self).wf(),
        ensures
            final(self).wf(),
            r is Ok <==> 32 <= old(self).spec_bits_left(),
            r is Err ==> r == Err::<(), StreamError>(StreamError::OutOfBounds) && *final(self)
                == *old(self),
            r is Ok ==> old(self).wrote(final(self), 32, value as u64),
    {
        let pattern: u32 = value;
        self.write_bits_us(pattern, 32)
    }

    /// Reads 32 bits as an unsigned number.
    pub fn read_uint32(&mut self) -> (r: Result<u32, StreamError>)
        requires
            old(self).wf(),
        ensures
            final(self).wf(),
            r is Ok <==> 32 <= old(self).spec_bits_left(),
            r is Err ==> r == Err::<u32, StreamError>(StreamError::OutOfBounds) && *final(self)
                == *old(self),
            r is Ok ==> r->Ok_0 == old(self).next_value(32) && old(self).advanced(final(self), 32),
    {
        match self.read_bits(32) {
            Ok(v) => {
                proof {
                    lemma_read_value_bound(
                        old(self).spec_bytes(),
                        old(self).spec_endianness(),
                        old(self).spec_index() as int,
                        32,
                    );
                    vstd::arithmetic::power2::lemma2_to64();
                }
                Ok(v as u32)
            },
            Err(err) => Err(err),
        }
    }

    /// `after` is `self` with the `count` 32-bit words of `v` written at the index,
    /// least significant word first, and the index moved past them.
    pub open spec fn wrote_words(&self, after: &BitStream, count: nat, v: u128) -> bool {
        &&& after.wf()
        &&& after.spec_endianness() == self.spec_endianness()
        &&& words_written(
            self.spec_bytes(),
            after.spec_bytes(),
            self.spec_endianness(),
            self.spec_index() as int,
            count,
            v,
        )
        &&& after.spec_index() == self.spec_index() + 32 * count
    }

    /// The number that a read of `count` 32-bit words at the index returns.
    pub open spec fn next_words(&self, count: nat) -> nat {
        read_words(self.spec_bytes(), self.spec_endianness(), self.spec_index() as int, count)
    }

    /// Writes `count` words of `v`, least significant first; the room is checked
    /// beforehand.
    fn write_words(&mut self, v: u128, count: usize) -> (r: Result<(), StreamError>)
        requires
            old(self).wf(),
            count <= 4,
        ensures
            final(self).wf(),
            r is Ok <==> 32 * count <= old(self).spec_bits_left(),
            r is Err ==> r == Err::<(), StreamError>(StreamError::OutOfBounds) && *final(self)
                == *old(self),
            r is Ok ==> old(self).wrote_words(final(self), count as nat, v),
    {
        if 32 * count > self.internal.len() * 8 - self.index {
            return Err(StreamError::OutOfBounds);
        }
        let ghost b0 = self.internal@;
        let ghost start = self.index as int;
        let e = self.endianness;
        let mut c: usize = 0;
        while c < count
            invariant
                self.wf(),
                self.endianness == e,
                0 <= start,
                c <= count <= 4,
                start + 32 * count <= b0.len() * 8,
                self.index == start + 32 * c,
                words_written(b0, self.internal@, e, start, c as nat, v),
            decreases count - c,
        {
            let shifted = v >> (32 * c) as u128;
            proof {
                assert(shifted & 0xFFFF_FFFFu128 <= 0xFFFF_FFFFu128) by (bit_vector);
            }
            let w = (shifted & 0xFFFF_FFFF) as u32;
            let ghost b1 = self.internal@;
            let r = self.write_bits_us(w, 32);
            proof {
                assert(r is Ok);
                lemma_words_step(b0, b1, self.internal@, e, start, c as nat, v);
            }
            c = c + 1;
        }
        Ok(())
    }

    /// Reads `count` words, least significant first; the room is checked beforehand.
    fn read_words(&mut self, count: usize) -> (r: Result<u128, StreamError>)
        requires
            old(self).wf(),
            count <= 4,
        ensures
            final(self).wf(),
            r is Ok <==> 32 * count <= old(self).spec_bits_left(),
            r is Err ==> r == Err::<u128, StreamError>(StreamError::OutOfBounds) && *final(self)
                == *old(self),
            r is Ok ==> r->Ok_0 == old(self).next_words(count as nat) && r->Ok_0 < pow2(
                32 * count as nat,
            ) && old(self).advanced(final(self), 32 * count),
    {
        if 32 * count > self.internal.len() * 8 - self.index {
            return Err(StreamError::OutOfBounds);
        }
        let ghost bytes = self.internal@;
        let ghost start = self.index as int;
        let e = self.endianness;
        let mut value: u128 = 0;
        let mut scale: u128 = 1;
        let mut k: usize = 0;
        proof {
            lemma2_to64();
        }
        while k < count
            invariant
                self.wf(),
                self.internal@ == bytes,
                self.endianness == e,
                0 <= start,
                k <= count <= 4,
                start + 32 * count <= bytes.len() * 8,
                self.index == start + 32 * k,
                value == read_words(bytes, e, start, k as nat),
                value < pow2(32 * k as nat),
                k < count ==> scale == pow2(32 * k as nat),
            decreases count - k,
        {
            let w = match self.read_bits(32) {
                Ok(w) => w,
                Err(_) => {
                    proof {
                        assert(false);
                    }
                    0
                },
            };
            proof {
                lemma2_to64();
                lemma_read_value_bound(bytes, e, start + 32 * k, 32);
                lemma_read_words_push(bytes, e, start, k as nat);
                lemma_words_fit(k as nat);
                lemma_pow2_adds(32 * k as nat, 32);
                assert(32 * k as nat + 32 == 32 * (k + 1) as nat);
                assert(value + w * scale < pow2(32 * (k + 1) as nat)) by (nonlinear_arith)
                    requires
                        value < scale,
                        w < pow2(32),
                        pow2(32 * (k + 1) as nat) == scale * pow2(32),
                ;
                assert(w * scale == scale * w) by (nonlinear_arith);
                lemma_words_fit((k + 1) as nat);
            }
            value = value + (w as u128) * scale;
            if k + 1 < count {
                proof {
                    assert(scale * pow2(32) == pow2(32 * (k + 1) as nat));
                }
                scale = scale * 0x1_0000_0000;
            }
            k = k + 1;
        }
        Ok(value)
    }

    /// Writes `value` as two 32-bit words, the low word first.
    pub fn write_uint64(&mut self, value: u64) -> (r: Result<(), StreamError>)
        requires
            old(self).wf(),
        ensures
            final(self).wf(),
            r is Ok <==> 64 <= old(self).spec_bits_left(),
            r is Err ==> r == Err::<(), StreamError>(StreamError::OutOfBounds) && *final(self)
                == *old(self),
            r is Ok ==> old(self).wrote_words(final(self), 2, value as u128),
    {
        self.write_words(value as u128, 2)
    }

    /// Reads two 32-bit words, the low word first.
    pub fn read_uint64(&mut self) -> (r: Result<u64, StreamError>)
        requires
            old(self).wf(),
        ensures
            final(self).wf(),
            r is Ok <==> 64 <= old(self).spec_bits_left(),
            r is Err ==> r == Err::<u64, StreamError>(StreamError::OutOfBounds) && *final(self)
                == *old(self),
            r is Ok ==> r->Ok_0 == old(self).next_words(2) && old(self).advanced(final(self), 64),
    {
        match self.read_words(2) {
            Ok(v) => {
                proof {
                    lemma2_to64_rest();
                }
                Ok(v as u64)
            },
            Err(err) => Err(err),
        }
    }

    /// Writes the two's-complement form of `value` as two 32-bit words, the low word first.
    pub fn write_int64(&mut self, value: i64) -> (r: Result<(), StreamError>)
        requires
            old(self).wf(),
        ensures
            final(self).wf(),
            r is Ok <==> 64 <= old(self).spec_bits_left(),
            r is Err ==> r == Err::<(), StreamError>(StreamError::OutOfBounds) && *final(self)
                == *old(self),
            r is Ok ==> old(self).wrote_words(final(self), 2, (value as u64) as u128),
    {
        self.write_words((value as u64) as u128, 2)
    }

    /// Reads two 32-bit words, the low word first, as a two's-complement number.
    pub fn read_int64(&mut self) -> (r: Result<i64, StreamError>)
        requires
            old(self).wf(),
        ensures
            final(self).wf(),
            r is Ok <==> 64 <= old(self).spec_bits_left(),
            r is Err ==> r == Err::<i64, StreamError>(StreamError::OutOfBounds) && *final(self)
                == *old(self),
            r is Ok ==> r->Ok_0 == signed_value(old(self).next_words(2), 64) && old(self).advanced(
                final(self),
                64,
            ),
    {
        match self.read_words(2) {
            Ok(v) => {
                proof {
                    lemma2_to64_rest();
                }
                let u = v as u64;
                proof {
                    assert((u as i64) as int == if u >= 0x8000_0000_0000_0000 {
                        u as int - 0x1_0000_0000_0000_0000
                    } else {
                        u as int
                    }) by (bit_vector);
                }
                Ok(#[verifier::truncate] (u as i64))
            },
            Err(err) => Err(err),
        }
    }

    /// Writes `value` as four 32-bit words, the lowest word first.
    pub fn write_uint128(&mut self, value: u128) -> (r: Result<(), StreamError>)
        requires
            old(self).wf(),
        ensures
            final(self).wf(),
            r is Ok <==> 128 <= old(self).spec_bits_left(),
            r is Err ==> r == Err::<(), StreamError>(StreamError::OutOfBounds) && *final(self)
                == *old(self),
            r is Ok ==> old(self).wrote_words(final(self), 4, value),
    {
        self.write_words(value, 4)
    }

    /// Reads four 32-bit words, the lowest word first.
    pub fn read_uint128(&mut self) -> (r: Result<u128, StreamError>)
        requires
            old(self).wf(),
        ensures
            final(self).wf(),
            r is Ok <==> 128 <= old(self).spec_bits_left(),
            r is Err ==> r == Err::<u128, StreamError>(StreamError::OutOfBounds) && *final(self)
                == *old(self),
            r is Ok ==> r->Ok_0 == old(self).next_words(4) && old(self).advanced(final(self), 128),
    {
        self.read_words(4)
    }

    /// Writes the two's-complement form of `value` as four 32-bit words, the lowest word first.
    pub fn write_int128(&mut self, value: i128) -> (r: Result<(), StreamError>)
        requires
            old(self).wf(),
        ensures
            final(self).wf(),
            r is Ok <==> 128 <= old(self).spec_bits_left(),
            r is Err ==> r == Err::<(), StreamError>(StreamError::OutOfBounds) && *final(self)
                == *old(self),
            r is Ok ==> old(self).wrote_words(final(self), 4, value as u128),
    {
        self.write_words(value as u128, 4)
    }

    /// Reads four 32-bit words, the lowest word first, as a two's-complement number.
    pub fn read_int128(&mut self) -> (r: Result<i128, StreamError>)
        requires
            old(self).wf(),
        ensures
            final(self).wf(),
            r is Ok <==> 128 <= old(self).spec_bits_left(),
            r is Err ==> r == Err::<i128, StreamError>(StreamError::OutOfBounds) && *final(self)
                == *old(self),
            r is Ok ==> r->Ok_0 == signed_value(old(self).next_words(4), 128) && old(self).advanced(
                final(self),
                128,
            ),
    {
        match self.read_words(4) {
            Ok(u) => {
                proof {
                    lemma2_to64_rest();
                    lemma_pow2_adds(64, 63);
                    lemma_pow2_adds(64, 64);
                    assert((u as i128) as int == if u >= 0x8000_0000_0000_0000_0000_0000_0000_0000 {
                        u as int - 0x1_0000_0000_0000_0000_0000_0000_0000_0000
                    } else {
                        u as int
                    }) by (bit_vector);
                }
                Ok(#[verifier::truncate] (u as i128))
            },
            Err(err) => Err(err),
        }
    }

    /// A new stream that owns a copy of bytes `start..end` of this one, with index 0
    /// and the same bit order. A negative bound counts back from the end.
    pub fn slice(&self, start: isize, end: isize) -> (r: Result<BitStream, StreamError>)
        requires
            self.wf(),
        ensures
            ({
                let len = self.spec_bytes().len() as int;
                let s = slice_bound(start as int, len);
                let t = slice_bound(end as int, len);
                &&& r is Ok <==> 0 <= s <= t <= len
                &&& r is Err ==> r == Err::<BitStream, StreamError>(StreamError::InvalidRange)
                &&& r is Ok ==> {
                    let c = r->Ok_0;
                    &&& c.wf()
                    &&& c.spec_bytes() == self.spec_bytes().subrange(s, t)
                    &&& c.spec_index() == 0
                    &&& c.spec_endianness() == self.spec_endianness()
                }
            }),
    {
        let len = self.internal.len();
        let len_i = len as isize;
        let norm_start: isize = if start < 0 {
            len_i + start
        } else {
            start
        };
        let norm_end: isize = if end < 0 {
            len_i + end
        } else {
            end
        };
        if norm_start < 0 || norm_end < norm_start || norm_end > len_i {
            return Err(StreamError::InvalidRange);
        }
        let from = norm_start as usize;
        let to = norm_end as usize;
        let mut internal: Vec<u8> = Vec::new();
        let mut i: usize = from;
        while i < to
            invariant
                from <= i <= to <= len,
                len == self.internal@.len(),
                internal@ == self.internal@.subrange(from as int, i as int),
            decreases to - i,
        {
            internal.push(self.internal[i]);
            i = i + 1;
            assert(internal@ =~= self.internal@.subrange(from as int, i as int));
        }
        Ok(BitStream { internal, endianness: self.endianness, index: 0 })
    }

    /// Copies `bits` bits (all the room left here, when `None`) from `stream`'s index
    /// into this stream, 32 bits at a time; both indexes move on by that many bits.
    pub fn write_bitstream(&mut self, stream: &mut BitStream, bits: Option<usize>) -> (r: Result<
        (),
        StreamError,
    >)
        requires
            old(self).wf(),
            old(stream).wf(),
        ensures
            final(self).wf(),
            final(stream).wf(),
            ({
                let n = match bits {
                    Some(b) => b as int,
                    None => old(self).spec_bits_left(),
                };
                &&& r is Ok <==> n <= old(self).spec_bits_left() && n <= old(stream).spec_bits_left()
                &&& r is Err ==> r == Err::<(), StreamError>(StreamError::OutOfBounds)
                    && *final(self) == *old(self) && *final(stream) == *old(stream)
                &&& r is Ok ==> old(stream).advanced(final(stream), n) && copied(
                    old(stream).spec_bytes(),
                    old(stream).spec_endianness(),
                    old(stream).spec_index() as int,
                    old(self).spec_bytes(),
                    final(self).spec_bytes(),
                    old(self).spec_endianness(),
                    old(self).spec_index() as int,
                    n,
                ) && final(self).spec_index() == old(self).spec_index() + n
                    && final(self).spec_endianness() == old(self).spec_endianness()
            }),
    {
        let n = match bits {
            Some(b) => b,
            None => self.bits_left(),
        };
        if n > self.bits_left() || n > stream.bits_left() {
            return Err(StreamError::OutOfBounds);
        }
        let ghost src = stream.internal@;
        let ghost src_start = stream.index as int;
        let ghost before = self.internal@;
        let ghost start = self.index as int;
        let ghost e = self.endianness;
        let mut done: usize = 0;
        while done < n
            invariant
                self.wf(),
                stream.wf(),
                stream.internal@ == src,
                stream.endianness == old(stream).endianness,
                stream.index == src_start + done,
                self.endianness == e,
                0 <= start,
                0 <= src_start,
                done <= n,
                n <= before.len() * 8 - start,
                n <= src.len() * 8 - src_start,
                self.index == start + done,
                copied(src, stream.endianness, src_start, before, self.internal@, e, start, done as int),
                done < n ==> done % 32 == 0,
            decreases n - done,
        {
            let chunk: usize = if n - done < 32 {
                n - done
            } else {
                32
            };
            let ghost mid = self.internal@;
            let value = match stream.read_bits(chunk) {
                Ok(v) => v,
                Err(_) => {
                    proof {
                        assert(false);
                    }
                    0
                },
            };
            let w = self.write_bits_us(value, chunk);
            proof {
                assert(w is Ok);
                lemma_copy_step(
                    src,
                    stream.endianness,
                    src_start,
                    before,
                    mid,
                    self.internal@,
                    e,
                    start,
                    done as int,
                    chunk as int,
                );
            }
            done = done + chunk;
        }
        Ok(())
    }

    /// A new stream over a copy of the bytes from offset `get_index()` to offset
    /// `get_index() + bits`, as `slice` takes them; the index does not move.
    pub fn read_bitstream(&self, bits: usize) -> (r: Result<BitStream, StreamError>)
        requires
            self.wf(),
        ensures
            ({
                let s = self.spec_index() as int;
                let t = self.spec_index() + bits;
                &&& r is Ok <==> t <= self.spec_bytes().len()
                &&& r is Err ==> r == Err::<BitStream, StreamError>(StreamError::InvalidRange)
                &&& r is Ok ==> {
                    let c = r->Ok_0;
                    &&& c.wf()
                    &&& c.spec_bytes() == self.spec_bytes().subrange(s, t)
                    &&& c.spec_index() == 0
                    &&& c.spec_endianness() == self.spec_endianness()
                }
            }),
    {
        if bits > self.internal.len() || self.index > self.internal.len() - bits {
            return Err(StreamError::InvalidRange);
        }
        let start = self.index as isize;
        let end = (self.index + bits) as isize;
        self.slice(start, end)
    }
}

} // verus!
