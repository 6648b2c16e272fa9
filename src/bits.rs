//! Mathematical model of bit sequences and the numbers they spell.
use vstd::arithmetic::power2::{
    lemma2_to64, lemma_pow2_adds, lemma_pow2_strictly_increases, lemma_pow2_unfold, pow2,
};
use vstd::bits::{lemma_u64_pow2_no_overflow, lemma_u64_shl_is_mul};
use vstd::prelude::*;

verus! {

/// Whether bit `t` (counted from the least significant end) of `x` is set.
pub open spec fn bit_of(x: u64, t: int) -> bool {
    (x >> (t as u64)) & 1u64 == 1u64
}

/// 1 for a set bit, 0 for a clear one.
pub open spec fn bit_value(b: bool) -> nat {
    if b {
        1
    } else {
        0
    }
}

/// The number spelled by `s` when its first element is the least significant bit.
pub open spec fn lsb_value(s: Seq<bool>) -> nat
    decreases s.len(),
{
    if s.len() == 0 {
        0
    } else {
        lsb_value(s.drop_last()) + pow2((s.len() - 1) as nat) * bit_value(s.last())
    }
}

/// The number spelled by `s` when its first element is the most significant bit.
pub open spec fn msb_value(s: Seq<bool>) -> nat
    decreases s.len(),
{
    if s.len() == 0 {
        0
    } else {
        msb_value(s.drop_last()) * 2 + bit_value(s.last())
    }
}

/// Mask of the `k` low bits.
pub open spec fn low_mask(k: u64) -> u64 {
    ((1u64 << k) - 1u64) as u64
}

/// The `k` bits of `x` starting at bit `off`, least significant first.
pub open spec fn lsb_bits(x: u64, off: int, k: int) -> Seq<bool> {
    Seq::new(k as nat, |j: int| bit_of(x, off + j))
}

/// The `k` bits of `x` starting at bit `off`, most significant first.
pub open spec fn msb_bits(x: u64, off: int, k: int) -> Seq<bool> {
    Seq::new(k as nat, |j: int| bit_of(x, off + k - 1 - j))
}

pub proof fn lemma_lsb_concat(a: Seq<bool>, b: Seq<bool>)
    ensures
        lsb_value(a + b) == lsb_value(a) + pow2(a.len()) * lsb_value(b),
    decreases b.len(),
{
    if b.len() == 0 {
        assert(a + b =~= a);
    } else {
        assert((a + b).drop_last() =~= a + b.drop_last());
        assert((a + b).last() == b.last());
        lemma_lsb_concat(a, b.drop_last());
        lemma_pow2_adds(a.len(), (b.len() - 1) as nat);
        let p = pow2(a.len());
        let q = pow2((b.len() - 1) as nat);
        let r = lsb_value(b.drop_last());
        let t = bit_value(b.last());
        assert(lsb_value(b) == r + q * t);
        assert(lsb_value(a + b) == lsb_value(a) + p * r + pow2(a.len() + (b.len() - 1) as nat) * t);
        assert(p * (r + q * t) == p * r + (p * q) * t) by (nonlinear_arith);
    }
}

pub proof fn lemma_msb_concat(a: Seq<bool>, b: Seq<bool>)
    ensures
        msb_value(a + b) == msb_value(a) * pow2(b.len()) + msb_value(b),
    decreases b.len(),
{
    if b.len() == 0 {
        assert(a + b =~= a);
        lemma2_to64();
        assert(msb_value(b) == 0);
    } else {
        assert((a + b).drop_last() =~= a + b.drop_last());
        assert((a + b).last() == b.last());
        lemma_msb_concat(a, b.drop_last());
        lemma_pow2_unfold(b.len());
        let q = pow2((b.len() - 1) as nat);
        let m = msb_value(a);
        let r = msb_value(b.drop_last());
        let t = bit_value(b.last());
        assert(msb_value(b) == r * 2 + t);
        assert(msb_value(a + b) == (m * q + r) * 2 + t);
        assert((m * q + r) * 2 == m * (2 * q) + r * 2) by (nonlinear_arith);
        assert(pow2(b.len()) == 2 * q);
    }
}

pub proof fn lemma_lsb_bound(s: Seq<bool>)
    ensures
        lsb_value(s) < pow2(s.len()),
    decreases s.len(),
{
    if s.len() == 0 {
        lemma2_to64();
    } else {
        lemma_lsb_bound(s.drop_last());
        lemma_pow2_unfold(s.len());
    }
}

pub proof fn lemma_msb_bound(s: Seq<bool>)
    ensures
        msb_value(s) < pow2(s.len()),
    decreases s.len(),
{
    if s.len() == 0 {
        lemma2_to64();
    } else {
        lemma_msb_bound(s.drop_last());
        lemma_pow2_unfold(s.len());
    }
}

/// `1 << k` is `2^k`.
pub proof fn lemma_shl_one(k: u64)
    requires
        k < 64,
    ensures
        1u64 << k == pow2(k as nat),
{
    lemma_u64_pow2_no_overflow(k as nat);
    lemma_u64_shl_is_mul(1u64, k);
}

/// Masking `k` bits after a shift by `off` yields the number those bits spell,
/// least significant first.
pub proof fn lemma_chunk_lsb(x: u64, off: u64, k: u64)
    requires
        off + k <= 64,
        k < 64,
    ensures
        (x >> off) & low_mask(k) == lsb_value(lsb_bits(x, off as int, k as int)),
    decreases k,
{
    if k == 0 {
        assert((x >> off) & ((1u64 << 0u64) - 1u64) as u64 == 0) by (bit_vector);
        assert(lsb_bits(x, off as int, 0) =~= Seq::<bool>::empty());
    } else {
        let k1 = (k - 1) as u64;
        lemma_chunk_lsb(x, off, k1);
        assert(lsb_bits(x, off as int, k as int).drop_last() =~= lsb_bits(x, off as int, k1 as int));
        assert((x >> off) & ((1u64 << k) - 1u64) as u64 == ((x >> off) & ((1u64 << k1) - 1u64) as u64) + (((x
            >> (off + k1) as u64) & 1u64) << k1)) by (bit_vector)
            requires
                k1 + 1 == k,
                off + k <= 64,
                k < 64,
        ;
        lemma_shl_one(k1);
        let b = (x >> (off + k1) as u64) & 1u64;
        assert((x >> (off + k1) as u64) & 1u64 <= 1) by (bit_vector);
        assert(b << k1 == b * pow2(k1 as nat)) by {
            lemma_u64_pow2_no_overflow(k1 as nat);
            assert(b * pow2(k1 as nat) <= pow2(k1 as nat)) by (nonlinear_arith)
                requires
                    b <= 1,
            ;
            lemma_u64_shl_is_mul(b, k1);
        }
        assert(bit_value(bit_of(x, off + k1)) == b);
        let s = lsb_bits(x, off as int, k as int);
        assert(s.last() == bit_of(x, off + k1));
        assert(lsb_value(s) == lsb_value(s.drop_last()) + pow2(k1 as nat) * bit_value(s.last()));
    }
}

/// Masking `k` bits after a shift by `off` yields the number those bits spell,
/// most significant first.
pub proof fn lemma_chunk_msb(x: u64, off: u64, k: u64)
    requires
        off + k <= 64,
        k < 64,
    ensures
        (x >> off) & low_mask(k) == msb_value(msb_bits(x, off as int, k as int)),
    decreases k,
{
    if k == 0 {
        assert((x >> off) & ((1u64 << 0u64) - 1u64) as u64 == 0) by (bit_vector);
        assert(msb_bits(x, off as int, 0) =~= Seq::<bool>::empty());
    } else {
        let k1 = (k - 1) as u64;
        let off1 = (off + 1) as u64;
        lemma_chunk_msb(x, off1, k1);
        assert(msb_bits(x, off as int, k as int).drop_last() =~= msb_bits(x, off1 as int, k1 as int));
        assert((x >> off) & ((1u64 << k) - 1u64) as u64 == ((x >> off1) & ((1u64 << k1) - 1u64) as u64) * 2 + ((
        x >> off) & 1u64)) by (bit_vector)
            requires
                k1 + 1 == k,
                off1 == off + 1,
                off + k <= 64,
                k < 64,
        ;
        assert((x >> off) & 1u64 <= 1) by (bit_vector);
        assert(msb_bits(x, off as int, k as int).last() == bit_of(x, off as int));
    }
}

/// Joining a value of `i` bits with `c` placed above it.
pub proof fn lemma_join_low(v: u64, c: u64, i: u64, k: u64)
    requires
        i + k <= 32,
        v < pow2(i as nat),
        c < pow2(k as nat),
    ensures
        v | (c << i) == v + c * pow2(i as nat),
        v + c * pow2(i as nat) < pow2((i + k) as nat),
{
    lemma_shl_one(i);
    lemma_shl_one(k);
    lemma_shl_one((i + k) as u64);
    lemma_pow2_adds(i as nat, k as nat);
    assert(c * pow2(i as nat) <= (pow2(k as nat) - 1) * pow2(i as nat)) by (nonlinear_arith)
        requires
            c < pow2(k as nat),
    ;
    assert((pow2(k as nat) - 1) * pow2(i as nat) == pow2(k as nat) * pow2(i as nat) - pow2(
        i as nat,
    )) by (nonlinear_arith);
    assert(v | (c << i) == v + (c << i)) by (bit_vector)
        requires
            v < (1u64 << i),
            c < (1u64 << k),
            i + k <= 32,
    ;
    lemma_u64_pow2_no_overflow((i + k) as nat);
    lemma_u64_shl_is_mul(c, i);
}

/// Shifting a value of `i` bits up by `k` and placing `c` below it.
pub proof fn lemma_join_high(v: u64, c: u64, i: u64, k: u64)
    requires
        i + k <= 32,
        v < pow2(i as nat),
        c < pow2(k as nat),
    ensures
        (v << k) | c == v * pow2(k as nat) + c,
        v * pow2(k as nat) + c < pow2((i + k) as nat),
{
    lemma_shl_one(i);
    lemma_shl_one(k);
    lemma_shl_one((i + k) as u64);
    lemma_pow2_adds(i as nat, k as nat);
    assert(v * pow2(k as nat) <= (pow2(i as nat) - 1) * pow2(k as nat)) by (nonlinear_arith)
        requires
            v < pow2(i as nat),
    ;
    assert((pow2(i as nat) - 1) * pow2(k as nat) == pow2(i as nat) * pow2(k as nat) - pow2(
        k as nat,
    )) by (nonlinear_arith);
    assert((v << k) | c == (v << k) + c) by (bit_vector)
        requires
            v < (1u64 << i),
            c < (1u64 << k),
            i + k <= 32,
    ;
    lemma_u64_pow2_no_overflow((i + k) as nat);
    lemma_u64_shl_is_mul(v, k);
}

/// A value below `2^n` is spelled by its own `n` low bits, in either order.
pub proof fn lemma_value_bits(v: u64, n: u64)
    requires
        n < 64,
        v < pow2(n as nat),
    ensures
        lsb_value(lsb_bits(v, 0, n as int)) == v,
        msb_value(msb_bits(v, 0, n as int)) == v,
{
    lemma_chunk_lsb(v, 0, n);
    lemma_chunk_msb(v, 0, n);
    lemma_shl_one(n);
    assert((v >> 0u64) & (((1u64 << n) - 1u64) as u64) == v) by (bit_vector)
        requires
            v < (1u64 << n),
            n < 64,
    ;
}

/// The bits of a masked value.
pub proof fn lemma_bit_of_masked(x: u64, k: u64, j: u64)
    requires
        j < k < 64,
    ensures
        bit_of(x & low_mask(k), j as int) == bit_of(x, j as int),
{
    assert(((x & (((1u64 << k) - 1u64) as u64)) >> j) & 1u64 == (x >> j) & 1u64) by (bit_vector)
        requires
            j < k < 64,
    ;
}

/// The bits of a shifted value.
pub proof fn lemma_bit_of_shifted(x: u64, i: u64, j: u64)
    requires
        i + j < 64,
    ensures
        bit_of(x >> i, j as int) == bit_of(x, i + j),
{
    assert(((x >> i) >> j) & 1u64 == (x >> ((i + j) as u64)) & 1u64) by (bit_vector)
        requires
            i + j < 64,
    ;
}

/// Replacing `k` bits of a byte at `shift` by the low bits of `w`.
pub proof fn lemma_byte_update(old: u8, w: u64, shift: u64, k: u64, t: u64)
    requires
        shift + k <= 8,
        w < pow2(k as nat),
        t < 8,
    ensures
        ({
            let m = low_mask(k);
            let nb = (((old as u64) & !(m << shift)) | (w << shift)) as u8;
            bit_of(nb as u64, t as int) == if shift <= t < shift + k {
                bit_of(w, t - shift)
            } else {
                bit_of(old as u64, t as int)
            }
        }),
{
    lemma_shl_one(k);
    let m = low_mask(k);
    let nb = (((old as u64) & !(m << shift)) | (w << shift)) as u8;
    if shift <= t < shift + k {
        assert(((nb as u64) >> t) & 1u64 == (w >> ((t - shift) as u64)) & 1u64) by (bit_vector)
            requires
                nb == (((old as u64) & !((((1u64 << k) - 1u64) as u64) << shift)) | (w << shift)) as u8,
                shift + k <= 8,
                w < (1u64 << k),
                shift <= t < shift + k,
        ;
    } else {
        assert(((nb as u64) >> t) & 1u64 == ((old as u64) >> t) & 1u64) by (bit_vector)
            requires
                nb == (((old as u64) & !((((1u64 << k) - 1u64) as u64) << shift)) | (w << shift)) as u8,
                shift + k <= 8,
                w < (1u64 << k),
                t < 8,
                !(shift <= t < shift + k),
        ;
    }
}

/// A value of at most 32 bits fits in a `u32`.
pub proof fn lemma_pow2_fits_u32(n: nat)
    requires
        n <= 32,
    ensures
        pow2(n) <= 0x1_0000_0000,
{
    lemma2_to64();
    if n < 32 {
        lemma_pow2_strictly_increases(n, 32);
    }
}

/// Adding a bit above a value of `k` bits keeps its low bits and sets bit `k`.
proof fn lemma_bit_of_sum(v: u64, b: u64, k: u64, j: u64)
    requires
        k < 63,
        v < (1u64 << k),
        b <= 1,
        j <= k,
    ensures
        bit_of((v + b * (1u64 << k)) as u64, j as int) == if j == k {
            b == 1
        } else {
            bit_of(v, j as int)
        },
{
    assert((((v + b * (1u64 << k)) as u64) >> j) & 1u64 == if j == k {
        b
    } else {
        (v >> j) & 1u64
    }) by (bit_vector)
        requires
            k < 63,
            v < (1u64 << k),
            b <= 1,
            j <= k,
    ;
}

/// The bits of the number that a run of bits spells, least significant first,
/// are that run.
pub proof fn lemma_lsb_bits_of_value(s: Seq<bool>)
    requires
        s.len() <= 32,
    ensures
        lsb_bits(lsb_value(s) as u64, 0, s.len() as int) == s,
    decreases s.len(),
{
    if s.len() > 0 {
        let k = (s.len() - 1) as u64;
        let t = s.drop_last();
        lemma_lsb_bits_of_value(t);
        lemma_lsb_bound(t);
        lemma_lsb_bound(s);
        lemma_shl_one(k);
        lemma_pow2_fits_u32(s.len());
        let v = lsb_value(t) as u64;
        let b = bit_value(s.last()) as u64;
        lemma_pow2_fits_u32(k as nat);
        assert(v == lsb_value(t));
        assert(b == bit_value(s.last()));
        assert(lsb_value(s) == lsb_value(t) + pow2(k as nat) * bit_value(s.last()));
        assert(pow2(k as nat) * bit_value(s.last()) == b * pow2(k as nat)) by (nonlinear_arith)
            requires
                b == bit_value(s.last()),
        ;
        assert(lsb_value(s) == v + b * pow2(k as nat));
        assert forall|j: int| 0 <= j < s.len() implies #[trigger] lsb_bits(
            lsb_value(s) as u64,
            0,
            s.len() as int,
        )[j] == s[j] by {
            lemma_bit_of_sum(v, b, k, j as u64);
            if j < k {
                assert(lsb_bits(v, 0, k as int)[j] == t[j]);
            }
        }
        assert(lsb_bits(lsb_value(s) as u64, 0, s.len() as int) =~= s);
    } else {
        assert(lsb_bits(lsb_value(s) as u64, 0, 0) =~= s);
    }
}

/// Doubling a value and adding a bit shifts its bits up by one.
proof fn lemma_bit_of_double(v: u64, b: u64, j: u64)
    requires
        v < 0x8000_0000,
        b <= 1,
        j < 33,
    ensures
        bit_of((2 * v + b) as u64, j as int) == if j == 0 {
            b == 1
        } else {
            bit_of(v, j - 1)
        },
{
    if j == 0 {
        assert((((2 * v + b) as u64) >> 0u64) & 1u64 == b) by (bit_vector)
            requires
                v < 0x8000_0000,
                b <= 1,
        ;
    } else {
        let i = (j - 1) as u64;
        assert((((2 * v + b) as u64) >> j) & 1u64 == (v >> i) & 1u64) by (bit_vector)
            requires
                v < 0x8000_0000,
                b <= 1,
                j < 33,
                i + 1 == j,
        ;
    }
}

/// The bits of the number that a run of bits spells, most significant first,
/// are that run.
pub proof fn lemma_msb_bits_of_value(s: Seq<bool>)
    requires
        s.len() <= 32,
    ensures
        msb_bits(msb_value(s) as u64, 0, s.len() as int) == s,
    decreases s.len(),
{
    if s.len() > 0 {
        let n = s.len() as int;
        let t = s.drop_last();
        lemma_msb_bits_of_value(t);
        lemma_msb_bound(t);
        lemma_pow2_fits_u32(t.len());
        if t.len() < 31 {
            vstd::arithmetic::power2::lemma_pow2_strictly_increases(t.len(), 31);
        }
        lemma2_to64();
        let v = msb_value(t) as u64;
        let b = bit_value(s.last()) as u64;
        assert(v == msb_value(t));
        assert(v < 0x8000_0000);
        assert(msb_value(s) == 2 * v + b);
        assert forall|j: int| 0 <= j < n implies #[trigger] msb_bits(
            msb_value(s) as u64,
            0,
            n,
        )[j] == s[j] by {
            lemma_bit_of_double(v, b, (n - 1 - j) as u64);
            if j < n - 1 {
                assert(msb_bits(v, 0, n - 1)[j] == t[j]);
            }
        }
        assert(msb_bits(msb_value(s) as u64, 0, n) =~= s);
    } else {
        assert(msb_bits(msb_value(s) as u64, 0, 0) =~= s);
    }
}

} // verus!
