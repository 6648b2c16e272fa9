//! The layout of a floating-point format of configurable width: where the sign,
//! exponent and mantissa fields lie, and the constants derived from them.
use vstd::arithmetic::power2::{lemma2_to64, lemma_pow2_adds, lemma_pow2_pos, lemma_pow2_strictly_increases, pow2};
use vstd::prelude::*;

verus! {

/// `2^k` as a `u128`.
fn pow2_u128(k: u32) -> (r: u128)
    requires
        k < 128,
    ensures
        r == pow2(k as nat),
{
    let mut r: u128 = 1;
    let mut i: u32 = 0;
    proof {
        lemma2_to64();
    }
    while i < k
        invariant
            i <= k < 128,
            r == pow2(i as nat),
        decreases k - i,
    {
        proof {
            lemma_pow2_adds(i as nat, 1);
            lemma2_to64();
            lemma_pow2_fits(i as nat + 1);
        }
        r = r * 2;
        i = i + 1;
    }
    r
}

proof fn lemma_pow2_fits(k: nat)
    requires
        k < 128,
    ensures
        pow2(k) < 0x1_0000_0000_0000_0000_0000_0000_0000_0000,
{
    lemma2_to64();
    vstd::arithmetic::power2::lemma2_to64_rest();
    lemma_pow2_adds(64, 64);
    lemma_pow2_strictly_increases(k, 128);
}

proof fn lemma_pow2_le_128(k: nat)
    requires
        k <= 128,
    ensures
        pow2(k) <= 0x1_0000_0000_0000_0000_0000_0000_0000_0000,
{
    lemma2_to64();
    vstd::arithmetic::power2::lemma2_to64_rest();
    lemma_pow2_adds(64, 64);
    if k < 128 {
        lemma_pow2_strictly_increases(k, 128);
    }
}

/// The configuration of a floating-point format: its total width, the width of
/// its exponent field, whether it has a sign bit, and the constants derived
/// from those once, at construction.
#[derive(Copy, Clone, Debug)]
pub struct DecimalSerializer {
    bits: u8,
    exponent_bits: u8,
    signed: bool,
    mantissa_width: u8,
    sign_mask: u128,
    exponent_mask: u128,
    mantissa_mask: u128,
    exponent_bias: u128,
    special_exp: u128,
    hidden_bit: u128,
}

/// The widths a format can have: at most 128 bits, an exponent of 1 to 32 bits
/// that leaves room for the sign bit.
pub open spec fn valid_layout(bits: u8, exponent_bits: u8, signed: bool) -> bool {
    &&& bits <= 128
    &&& 1 <= exponent_bits <= 32
    &&& exponent_bits < bits
    &&& exponent_bits + (if signed { 1int } else { 0int }) <= bits
}

impl DecimalSerializer {
    /// The derived constants agree with the widths.
    pub closed spec fn wf(&self) -> bool {
        &&& valid_layout(self.bits, self.exponent_bits, self.signed)
        &&& self.mantissa_width == self.bits - self.exponent_bits - (if self.signed {
            1int
        } else {
            0int
        })
        &&& self.hidden_bit == pow2(self.mantissa_width as nat)
        &&& self.special_exp == pow2(self.exponent_bits as nat) - 1
        &&& self.exponent_bias == pow2((self.exponent_bits - 1) as nat) - 1
        &&& self.mantissa_mask == self.hidden_bit - 1
        &&& self.exponent_mask == self.special_exp * self.hidden_bit
        &&& self.sign_mask == if self.signed {
            pow2((self.bits - 1) as nat)
        } else {
            0
        }
    }

    /// Total width in bits.
    pub closed spec fn spec_bits(&self) -> u8 {
        self.bits
    }

    /// Width of the exponent field.
    pub closed spec fn spec_exponent_bits(&self) -> u8 {
        self.exponent_bits
    }

    /// Whether there is a sign bit.
    pub closed spec fn spec_signed(&self) -> bool {
        self.signed
    }

    /// Width of the mantissa field: what the exponent and the sign leave.
    pub open spec fn spec_mantissa_width(&self) -> nat {
        (self.spec_bits() - self.spec_exponent_bits() - (if self.spec_signed() {
            1int
        } else {
            0int
        })) as nat
    }

    /// Creates a signed format of `bits` bits with `exponent_bits` of exponent.
    pub fn new(bits: u8, exponent_bits: u8) -> (r: DecimalSerializer)
        requires
            valid_layout(bits, exponent_bits, true),
        ensures
            r.wf(),
            r.spec_bits() == bits,
            r.spec_exponent_bits() == exponent_bits,
            r.spec_signed(),
    {
        Self::new_sign(bits, exponent_bits, true)
    }

    /// Creates an unsigned format of `bits` bits with `exponent_bits` of exponent.
    pub fn new_unsigned(bits: u8, exponent_bits: u8) -> (r: DecimalSerializer)
        requires
            valid_layout(bits, exponent_bits, false),
        ensures
            r.wf(),
            r.spec_bits() == bits,
            r.spec_exponent_bits() == exponent_bits,
            !r.spec_signed(),
    {
        Self::new_sign(bits, exponent_bits, false)
    }

    fn new_sign(bits: u8, exponent_bits: u8, signed: bool) -> (r: DecimalSerializer)
        requires
            valid_layout(bits, exponent_bits, signed),
        ensures
            r.wf(),
            r.spec_bits() == bits,
            r.spec_exponent_bits() == exponent_bits,
            r.spec_signed() == signed,
    {
        let mantissa_width = bits - exponent_bits - (if signed { 1u8 } else { 0u8 });
        proof {
            lemma_pow2_pos(exponent_bits as nat);
            lemma_pow2_pos((exponent_bits - 1) as nat);
        }
        let special_exp = pow2_u128(exponent_bits as u32) - 1;
        let hidden_bit = pow2_u128(mantissa_width as u32);
        let exponent_bias = pow2_u128((exponent_bits - 1) as u32) - 1;
        proof {
            lemma_pow2_pos(exponent_bits as nat);
            lemma_pow2_adds(exponent_bits as nat, mantissa_width as nat);
            lemma_pow2_le_128(exponent_bits as nat + mantissa_width as nat);
            lemma_pow2_pos(mantissa_width as nat);
            assert(special_exp * hidden_bit < pow2(exponent_bits as nat) * pow2(mantissa_width as nat))
                by (nonlinear_arith)
                requires
                    special_exp < pow2(exponent_bits as nat),
                    hidden_bit == pow2(mantissa_width as nat),
                    hidden_bit > 0,
            ;
            lemma_pow2_pos(mantissa_width as nat);
            lemma_pow2_pos((exponent_bits - 1) as nat);
        }
        DecimalSerializer {
            bits,
            exponent_bits,
            signed,
            mantissa_width,
            sign_mask: if signed {
                pow2_u128((bits - 1) as u32)
            } else {
                0
            },
            exponent_mask: special_exp * hidden_bit,
            mantissa_mask: hidden_bit - 1,
            exponent_bias,
            special_exp,
            hidden_bit,
        }
    }

    /// Total width in bits.
    pub fn bits(&self) -> (r: u8)
        ensures
            r == self.spec_bits(),
    {
        self.bits
    }

    /// Width of the exponent field.
    pub fn exponent_bits(&self) -> (r: u8)
        ensures
            r == self.spec_exponent_bits(),
    {
        self.exponent_bits
    }

    /// Whether there is a sign bit.
    pub fn signed(&self) -> (r: bool)
        ensures
            r == self.spec_signed(),
    {
        self.signed
    }

    /// Width of the mantissa field.
    pub fn mantissa_width(&self) -> (r: u8)
        requires
            self.wf(),
        ensures
            r == self.spec_mantissa_width(),
    {
        self.mantissa_width
    }

    /// The bias added to a stored exponent: `2^(exponent_bits - 1) - 1`.
    pub fn exponent_bias(&self) -> (r: u128)
        requires
            self.wf(),
        ensures
            r == pow2((self.spec_exponent_bits() - 1) as nat) - 1,
    {
        self.exponent_bias
    }

    /// The all-ones exponent that marks infinity and NaN: `2^exponent_bits - 1`.
    pub fn special_exp(&self) -> (r: u128)
        requires
            self.wf(),
        ensures
            r == pow2(self.spec_exponent_bits() as nat) - 1,
    {
        self.special_exp
    }

    /// One past the largest mantissa: `2^mantissa_width`.
    pub fn hidden_bit(&self) -> (r: u128)
        requires
            self.wf(),
        ensures
            r == pow2(self.spec_mantissa_width()),
    {
        self.hidden_bit
    }

    /// Splits a bit pattern into its sign, exponent and mantissa fields; bits above
    /// the format's width are ignored, and an unsigned format has no sign.
    pub fn split(&self, pattern: u128) -> (r: (bool, u128, u128))
        requires
            self.wf(),
        ensures
            r.2 == pattern as nat % pow2(self.spec_mantissa_width()),
            r.1 == (pattern as nat / pow2(self.spec_mantissa_width())) % pow2(
                self.spec_exponent_bits() as nat,
            ),
            r.0 == (self.spec_signed() && (pattern as nat / pow2((self.spec_bits() - 1) as nat)) % 2
                == 1),
    {
        proof {
            lemma_pow2_pos(self.mantissa_width as nat);
            lemma_pow2_pos((self.bits - 1) as nat);
            lemma_pow2_fits(self.exponent_bits as nat);
        }
        let mantissa = pattern % self.hidden_bit;
        let exponent = (pattern / self.hidden_bit) % (self.special_exp + 1);
        let sign = self.signed && (pattern / self.sign_mask) % 2 == 1;
        (sign, exponent, mantissa)
    }

    /// Puts the fields together: `sign_mask + exponent * 2^mantissa_width + mantissa`.
    pub fn compose(&self, sign: bool, exponent: u128, mantissa: u128) -> (r: u128)
        requires
            self.wf(),
            exponent < pow2(self.spec_exponent_bits() as nat),
            mantissa < pow2(self.spec_mantissa_width()),
        ensures
            r == (if sign && self.spec_signed() {
                pow2((self.spec_bits() - 1) as nat)
            } else {
                0
            }) + exponent * pow2(self.spec_mantissa_width()) + mantissa,
            r < pow2(self.spec_bits() as nat),
    {
        proof {
            lemma_compose_fits(self.bits as nat, self.exponent_bits as nat, self.mantissa_width as nat, self.signed, exponent as nat, mantissa as nat);
        }
        let s = if sign && self.signed {
            self.sign_mask
        } else {
            0
        };
        s + exponent * self.hidden_bit + mantissa
    }
}

proof fn lemma_compose_fits(bits: nat, eb: nat, mw: nat, signed: bool, exponent: nat, mantissa: nat)
    requires
        bits <= 128,
        1 <= eb,
        mw == bits - eb - (if signed { 1int } else { 0int }),
        exponent < pow2(eb),
        mantissa < pow2(mw),
    ensures
        exponent * pow2(mw) + mantissa < pow2(eb + mw),
        (if signed { pow2((bits - 1) as nat) } else { 0 }) + exponent * pow2(mw) + mantissa < pow2(bits),
        pow2(bits) <= 0x1_0000_0000_0000_0000_0000_0000_0000_0000,
{
    lemma_pow2_adds(eb, mw);
    assert(exponent * pow2(mw) + mantissa < pow2(eb) * pow2(mw)) by (nonlinear_arith)
        requires
            exponent < pow2(eb),
            mantissa < pow2(mw),
    ;
    lemma2_to64();
    vstd::arithmetic::power2::lemma2_to64_rest();
    lemma_pow2_adds(64, 64);
    if bits < 128 {
        lemma_pow2_strictly_increases(bits, 128);
    }
    if signed {
        lemma_pow2_adds((bits - 1) as nat, 1);
        assert(eb + mw == bits - 1);
    } else {
        assert(eb + mw == bits);
    }
}

/// The double nearest to two thirds is `round_third() / 2^53`.
pub open spec fn round_third() -> nat {
    6004799503160661
}

/// The first `w` binary digits after the point of `n / 2^d` (a number below 1),
/// read as an integer. The last digit is set too when the rest that follows the
/// digit before it, doubled, reaches the double nearest to two thirds.
pub open spec fn fraction_bits(n: nat, d: nat, w: nat) -> nat {
    if w == 0 {
        0
    } else {
        let scaled = n * pow2((w - 1) as nat);
        2 * (scaled / pow2(d)) + if 2 * (scaled % pow2(d)) * pow2(53) >= round_third() * pow2(d) {
            1nat
        } else {
            0nat
        }
    }
}

/// The position of the highest set bit of `m`.
pub open spec fn floor_log2(m: nat) -> nat
    decreases m,
{
    if m < 2 {
        0
    } else {
        1 + floor_log2(m / 2)
    }
}

/// The pattern of the finite value `(-1)^negative * m * 2^q` in format `f`. A
/// magnitude below the smallest step gives zero, without sign; one above
/// `2^(bias + 1)` gives infinity. With `e = floor(log2(m * 2^q))`, a value with
/// `e <= -bias` is subnormal: exponent field 0, mantissa the digits of
/// `m * 2^q / 2^(1 - bias)`. Otherwise the exponent field is `e + bias` and the
/// mantissa holds the digits of `m * 2^q / 2^e` after its leading 1.
pub open spec fn encode_finite_spec(f: DecimalSerializer, negative: bool, m: nat, q: int) -> int {
    let eb = f.spec_exponent_bits() as nat;
    let mw = f.spec_mantissa_width();
    let bias = pow2((eb - 1) as nat) - 1;
    let sign = if negative && f.spec_signed() {
        pow2((f.spec_bits() - 1) as nat)
    } else {
        0
    };
    let l = floor_log2(m);
    let e = l + q;
    if m == 0 || e < 1 - bias - mw {
        0int
    } else if e > bias + 1 || (e == bias + 1 && m != pow2(l)) {
        sign + (pow2(eb) - 1) * pow2(mw)
    } else if e <= -bias {
        sign + fraction_bits(m, (1 - bias - q) as nat, mw) as int
    } else {
        sign + (e + bias) * pow2(mw) + fraction_bits((m - pow2(l)) as nat, l, mw)
    }
}

pub proof fn lemma_floor_log2_bounds(m: nat)
    requires
        m >= 1,
    ensures
        pow2(floor_log2(m)) <= m < pow2(floor_log2(m) + 1),
    decreases m,
{
    lemma2_to64();
    if m >= 2 {
        lemma_floor_log2_bounds(m / 2);
        vstd::arithmetic::power2::lemma_pow2_unfold(floor_log2(m));
        vstd::arithmetic::power2::lemma_pow2_unfold(floor_log2(m) + 1);
    }
}

/// The highest set bit of `m`, which is not zero.
fn floor_log2_exec(m: u64) -> (r: u32)
    requires
        m >= 1,
    ensures
        r == floor_log2(m as nat),
        r < 64,
{
    proof {
        lemma_floor_log2_small(m);
    }
    let mut x = m;
    let mut l: u32 = 0;
    while x >= 2
        invariant
            1 <= x <= m,
            l + floor_log2(x as nat) == floor_log2(m as nat),
            l + 64 <= 64 + floor_log2(m as nat),
            floor_log2(m as nat) < 64,
        decreases x,
    {
        x = x / 2;
        l = l + 1;
    }
    l
}

proof fn lemma_floor_log2_small(m: u64)
    requires
        m >= 1,
    ensures
        floor_log2(m as nat) < 64,
{
    lemma_floor_log2_bounds(m as nat);
    vstd::arithmetic::power2::lemma2_to64_rest();
    if floor_log2(m as nat) >= 64 {
        vstd::arithmetic::power2::lemma_pow2_strictly_increases(64, floor_log2(m as nat));
    }
}

/// Splitting `n * 2^s` by `2^(s + g)`: quotient `n / 2^g`, remainder `(n % 2^g) * 2^s`.
proof fn lemma_scaled_div_mod(n: nat, s: nat, g: nat)
    ensures
        (n * pow2(s)) / pow2(s + g) == n / pow2(g),
        (n * pow2(s)) % pow2(s + g) == (n % pow2(g)) * pow2(s),
{
    lemma_pow2_pos(s);
    lemma_pow2_pos(g);
    lemma_pow2_adds(s, g);
    let q = n / pow2(g);
    let r = n % pow2(g);
    vstd::arithmetic::div_mod::lemma_fundamental_div_mod(n as int, pow2(g) as int);
    assert(n == q * pow2(g) + r);
    assert(0 <= r < pow2(g));
    assert(n * pow2(s) == q * (pow2(s) * pow2(g)) + r * pow2(s)) by (nonlinear_arith)
        requires
            n == q * pow2(g) + r,
    ;
    assert(r * pow2(s) < pow2(s) * pow2(g)) by (nonlinear_arith)
        requires
            r < pow2(g),
            pow2(s) > 0,
    ;
    vstd::arithmetic::div_mod::lemma_fundamental_div_mod_converse(
        (n * pow2(s)) as int,
        pow2(s + g) as int,
        q as int,
        (r * pow2(s)) as int,
    );
}

/// `x >= c * 2^k` exactly when `x / 2^k >= c`.
proof fn lemma_ge_scaled(x: nat, c: nat, k: nat)
    ensures
        x >= c * pow2(k) <==> x / pow2(k) >= c,
{
    lemma_pow2_pos(k);
    let b = pow2(k);
    vstd::arithmetic::div_mod::lemma_fundamental_div_mod(x as int, b as int);
    let q = x / b;
    let r = x % b;
    if x >= c * b {
        if q < c {
            assert(q * b + r < c * b) by (nonlinear_arith)
                requires
                    q + 1 <= c,
                    r < b,
                    b > 0,
            ;
        }
    } else {
        if q >= c {
            assert(q * b + r >= c * b) by (nonlinear_arith)
                requires
                    q >= c,
                    r >= 0,
                    b > 0,
            ;
        }
    }
}

/// `fraction_bits(n, d, w)`, computed.
fn fraction_bits_exec(n: u64, d: u64, w: u32) -> (r: u128)
    requires
        n < pow2(d as nat),
        w <= 127,
    ensures
        r == fraction_bits(n as nat, d as nat, w as nat),
        r < pow2(w as nat),
{
    if w == 0 {
        proof {
            lemma2_to64();
        }
        return 0;
    }
    let s: u32 = w - 1;
    proof {
        lemma2_to64();
        lemma_pow2_pos(d as nat);
        lemma_pow2_pos(s as nat);
        lemma_pow2_adds(s as nat, 1);
    }
    let ghost scaled = n as nat * pow2(s as nat);
    if d <= s as u64 {
        let k: u32 = s - d as u32;
        let p = pow2_u128(k);
        proof {
            lemma_pow2_pos(k as nat);
            lemma_pow2_fits(w as nat);
            lemma_pow2_adds(d as nat, k as nat);
            assert(d as nat + k as nat == s as nat);
            assert(n * p < pow2(d as nat) * p) by (nonlinear_arith)
                requires
                    n < pow2(d as nat),
                    p > 0,
            ;
            lemma_pow2_fits(s as nat);
            assert(scaled == (n * p) * pow2(d as nat)) by (nonlinear_arith)
                requires
                    scaled == n * pow2(s as nat),
                    pow2(s as nat) == pow2(d as nat) * p,
            ;
            vstd::arithmetic::div_mod::lemma_fundamental_div_mod_converse(
                scaled as int,
                pow2(d as nat) as int,
                (n * p) as int,
                0,
            );
            assert(round_third() * pow2(d as nat) > 0) by (nonlinear_arith)
                requires
                    pow2(d as nat) > 0,
            ;
        }
        let t = (n as u128) * p;
        proof {
            assert((w - 1) as nat == s as nat);
            assert(scaled / pow2(d as nat) == t);
            assert(scaled % pow2(d as nat) == 0);
            assert(2 * (scaled % pow2(d as nat)) * pow2(53) == 0) by (nonlinear_arith)
                requires
                    scaled % pow2(d as nat) == 0,
            ;
        }
        return 2 * t;
    }
    let g: u64 = d - s as u64;
    proof {
        lemma_scaled_div_mod(n as nat, s as nat, g as nat);
        assert(s as nat + g as nat == d as nat);
        vstd::arithmetic::power2::lemma2_to64_rest();
    }
    let t: u128;
    let nl: u128;
    if g < 64 {
        let p = pow2_u128(g as u32);
        t = (n as u128) / p;
        nl = (n as u128) % p;
    } else {
        proof {
            if g > 64 {
                vstd::arithmetic::power2::lemma_pow2_strictly_increases(64, g as nat);
            }
            vstd::arithmetic::div_mod::lemma_fundamental_div_mod_converse(
                n as int,
                pow2(g as nat) as int,
                0,
                n as int,
            );
        }
        t = 0;
        nl = n as u128;
    }
    proof {
        // t is below 2^(w-1): n < 2^(s+g) gives n / 2^g < 2^s
        lemma_pow2_pos(g as nat);
        lemma_pow2_adds(s as nat, g as nat);
        vstd::arithmetic::div_mod::lemma_fundamental_div_mod(n as int, pow2(g as nat) as int);
        assert(t == n as nat / pow2(g as nat));
        assert(n as nat >= t * pow2(g as nat)) by (nonlinear_arith)
            requires
                n as int == pow2(g as nat) * (n as int / pow2(g as nat) as int) + (n as int % pow2(
                    g as nat,
                ) as int),
                n as int % pow2(g as nat) as int >= 0,
                t == n as nat / pow2(g as nat),
        ;
        assert(n < pow2(s as nat) * pow2(g as nat));
        if t >= pow2(s as nat) {
            assert(t * pow2(g as nat) >= pow2(s as nat) * pow2(g as nat)) by (nonlinear_arith)
                requires
                    t >= pow2(s as nat),
                    pow2(g as nat) > 0,
            ;
        }
        assert(t < pow2(s as nat));
        assert(pow2(w as nat) == 2 * pow2(s as nat));
        lemma_pow2_fits(s as nat);
        lemma_pow2_fits(w as nat);
        // the rounding test, with 2^s cancelled
        let lhs = 2 * (nl * pow2(s as nat)) * pow2(53);
        let rhs = round_third() * pow2(d as nat);
        lemma_pow2_adds(53, 1);
        lemma_pow2_adds(54, g as nat);
        assert(lhs == (nl * pow2(54)) * pow2(s as nat)) by (nonlinear_arith)
            requires
                lhs == 2 * (nl * pow2(s as nat)) * pow2(53),
                pow2(54) == pow2(53) * 2,
        ;
        assert(rhs == (round_third() * pow2(g as nat)) * pow2(s as nat)) by (nonlinear_arith)
            requires
                rhs == round_third() * pow2(d as nat),
                pow2(d as nat) == pow2(s as nat) * pow2(g as nat),
        ;
        assert(lhs >= rhs <==> nl * pow2(54) >= round_third() * pow2(g as nat)) by (nonlinear_arith)
            requires
                lhs == (nl * pow2(54)) * pow2(s as nat),
                rhs == (round_third() * pow2(g as nat)) * pow2(s as nat),
                pow2(s as nat) > 0,
        ;
    }
    let last: bool;
    if g <= 54 {
        let p = pow2_u128((54 - g) as u32);
        proof {
            lemma_pow2_adds((54 - g) as nat, g as nat);
            assert(nl * p < pow2(g as nat) * p) by (nonlinear_arith)
                requires
                    nl < pow2(g as nat),
                    p > 0,
            ;
            assert(pow2(54) == 0x40_0000_0000_0000);
            assert(nl * p < 0x40_0000_0000_0000);
            assert(nl * pow2(54) >= round_third() * pow2(g as nat) <==> nl * p >= round_third())
                by (nonlinear_arith)
                requires
                    pow2(54) == p * pow2(g as nat),
                    pow2(g as nat) > 0,
            ;
        }
        last = nl * p >= 6004799503160661;
    } else {
        proof {
            lemma_pow2_adds(54, (g - 54) as nat);
            assert(nl * pow2(54) >= round_third() * pow2(g as nat) <==> nl >= round_third() * pow2(
                (g - 54) as nat,
            )) by (nonlinear_arith)
                requires
                    pow2(g as nat) == pow2(54) * pow2((g - 54) as nat),
                    pow2(54) > 0,
            ;
            lemma_ge_scaled(nl as nat, round_third(), (g - 54) as nat);
        }
        if g - 54 < 64 {
            let p = pow2_u128((g - 54) as u32);
            last = nl / p >= 6004799503160661;
        } else {
            proof {
                if g - 54 > 64 {
                    vstd::arithmetic::power2::lemma_pow2_strictly_increases(64, (g - 54) as nat);
                }
                vstd::arithmetic::div_mod::lemma_fundamental_div_mod_converse(
                    nl as int,
                    pow2((g - 54) as nat) as int,
                    0,
                    nl as int,
                );
            }
            last = false;
        }
    }
    2 * t + if last {
        1
    } else {
        0
    }
}

impl DecimalSerializer {
    /// The pattern of the finite value `(-1)^negative * significand * 2^exponent`
    /// (see `encode_finite_spec`); the digits of the mantissa are cut as
    /// `fraction_bits` says.
    pub fn encode_finite(&self, negative: bool, significand: u64, exponent: i32) -> (r: u128)
        requires
            self.wf(),
        ensures
            r == encode_finite_spec(*self, negative, significand as nat, exponent as int),
    {
        if significand == 0 {
            return 0;
        }
        let l = floor_log2_exec(significand);
        proof {
            lemma_floor_log2_bounds(significand as nat);
            lemma2_to64();
            if self.exponent_bits - 1 < 31 {
                lemma_pow2_strictly_increases((self.exponent_bits - 1) as nat, 31);
            }
            lemma_pow2_pos((self.exponent_bits - 1) as nat);
            lemma_pow2_fits(l as nat);
            vstd::arithmetic::power2::lemma2_to64_rest();
            if l < 63 {
                lemma_pow2_strictly_increases(l as nat, 64);
            }
        }
        let e: i64 = l as i64 + exponent as i64;
        let bias: i64 = self.exponent_bias as i64;
        let mw: i64 = self.mantissa_width as i64;
        if e < 1 - bias - mw {
            return 0;
        }
        let sign = negative && self.signed;
        let top = pow2_u128(l);
        proof {
            lemma_pow2_pos(self.exponent_bits as nat);
            vstd::arithmetic::power2::lemma_pow2_unfold(self.exponent_bits as nat);
        }
        if e > bias + 1 || (e == bias + 1 && significand as u128 != top) {
            return self.compose(sign, self.special_exp, 0);
        }
        if e <= -bias {
            let d: u64 = (1 - bias - exponent as i64) as u64;
            proof {
                if l as nat + 1 < d as nat {
                    lemma_pow2_strictly_increases(l as nat + 1, d as nat);
                }
                lemma_pow2_pos(self.mantissa_width as nat);
            }
            let mantissa = fraction_bits_exec(significand, d, self.mantissa_width as u32);
            proof {
                lemma_pow2_pos(self.mantissa_width as nat);
            }
            return self.compose(sign, 0, mantissa);
        }
        let mantissa = fraction_bits_exec(
            significand - top as u64,
            l as u64,
            self.mantissa_width as u32,
        );
        self.compose(sign, (e + bias) as u128, mantissa)
    }
}

/// A floating-point value taken apart: a finite `(-1)^negative * significand *
/// 2^exponent`, an infinity, or a NaN.
#[derive(Copy, Clone, Debug, PartialEq, Eq, Structural)]
pub enum FloatParts {
    Finite { negative: bool, significand: u128, exponent: i64 },
    Infinite { negative: bool },
    NotANumber { negative: bool },
}

/// The parts of the IEEE-754 double with bits `bits`: sign bit 63, exponent field
/// bits 52 to 62, fraction bits 0 to 51.
pub open spec fn double_parts(bits: u64) -> FloatParts {
    let negative = bits as nat / pow2(63) == 1;
    let field = (bits as nat / pow2(52)) % pow2(11);
    let fraction = bits as nat % pow2(52);
    if field == 2047 {
        if fraction == 0 {
            FloatParts::Infinite { negative }
        } else {
            FloatParts::NotANumber { negative }
        }
    } else if field == 0 {
        FloatParts::Finite { negative, significand: fraction as u128, exponent: -1074i64 }
    } else {
        FloatParts::Finite {
            negative,
            significand: (pow2(52) + fraction) as u128,
            exponent: (field - 1075) as i64,
        }
    }
}

/// The value that `pattern` stands for in format `f`, by its fields: exponent
/// field 0 gives `mantissa * 2^(1 - bias - mantissa_width)`; the all-ones field
/// gives an infinity (mantissa 0) or a NaN; any other field `x` gives
/// `(2^mantissa_width + mantissa) * 2^(x - bias - mantissa_width)`.
pub open spec fn decoded_parts(f: DecimalSerializer, pattern: u128) -> FloatParts {
    let mw = f.spec_mantissa_width();
    let bias = pow2((f.spec_exponent_bits() - 1) as nat) - 1;
    let negative = f.spec_signed() && (pattern as nat / pow2((f.spec_bits() - 1) as nat)) % 2 == 1;
    let field = (pattern as nat / pow2(mw)) % pow2(f.spec_exponent_bits() as nat);
    let mantissa = pattern as nat % pow2(mw);
    if field == 0 {
        FloatParts::Finite {
            negative,
            significand: mantissa as u128,
            exponent: (1 - bias - mw) as i64,
        }
    } else if field == pow2(f.spec_exponent_bits() as nat) - 1 {
        if mantissa == 0 {
            FloatParts::Infinite { negative }
        } else {
            FloatParts::NotANumber { negative }
        }
    } else {
        FloatParts::Finite {
            negative,
            significand: (pow2(mw) + mantissa) as u128,
            exponent: (field - bias - mw) as i64,
        }
    }
}

/// The parts of the IEEE-754 single with bits `bits`: sign bit 31, exponent field
/// bits 23 to 30, fraction bits 0 to 22.
pub open spec fn single_parts(bits: u32) -> FloatParts {
    let negative = bits as nat / pow2(31) == 1;
    let field = (bits as nat / pow2(23)) % pow2(8);
    let fraction = bits as nat % pow2(23);
    if field == 255 {
        if fraction == 0 {
            FloatParts::Infinite { negative }
        } else {
            FloatParts::NotANumber { negative }
        }
    } else if field == 0 {
        FloatParts::Finite { negative, significand: fraction as u128, exponent: -149i64 }
    } else {
        FloatParts::Finite {
            negative,
            significand: (pow2(23) + fraction) as u128,
            exponent: (field - 150) as i64,
        }
    }
}

/// Takes apart the bits of an IEEE-754 double.
pub fn split_double(bits: u64) -> (r: FloatParts)
    ensures
        r == double_parts(bits),
{
    let two52: u64 = 0x10_0000_0000_0000;
    let negative = bits / 0x8000_0000_0000_0000 == 1;
    let field = (bits / two52) % 2048;
    let fraction = bits % two52;
    proof {
        lemma2_to64();
        vstd::arithmetic::power2::lemma2_to64_rest();
    }
    if field == 2047 {
        if fraction == 0 {
            FloatParts::Infinite { negative }
        } else {
            FloatParts::NotANumber { negative }
        }
    } else if field == 0 {
        FloatParts::Finite { negative, significand: fraction as u128, exponent: -1074 }
    } else {
        FloatParts::Finite {
            negative,
            significand: (two52 + fraction) as u128,
            exponent: field as i64 - 1075,
        }
    }
}

impl DecimalSerializer {
    /// The value that a pattern stands for (see `decoded_parts`).
    pub fn decode_parts(&self, pattern: u128) -> (r: FloatParts)
        requires
            self.wf(),
        ensures
            r == decoded_parts(*self, pattern),
    {
        let (negative, field, mantissa) = self.split(pattern);
        proof {
            lemma2_to64();
            if self.exponent_bits - 1 < 31 {
                lemma_pow2_strictly_increases((self.exponent_bits - 1) as nat, 31);
            }
            lemma_pow2_pos((self.exponent_bits - 1) as nat);
            if self.exponent_bits < 32 {
                lemma_pow2_strictly_increases(self.exponent_bits as nat, 32);
            }
            vstd::arithmetic::power2::lemma2_to64_rest();
            lemma_pow2_fits(self.mantissa_width as nat);
            vstd::arithmetic::power2::lemma_pow2_unfold(self.exponent_bits as nat);
        }
        let bias = self.exponent_bias as i64;
        let mw = self.mantissa_width as i64;
        if field == 0 {
            FloatParts::Finite { negative, significand: mantissa, exponent: 1 - bias - mw }
        } else if field == self.special_exp {
            if mantissa == 0 {
                FloatParts::Infinite { negative }
            } else {
                FloatParts::NotANumber { negative }
            }
        } else {
            proof {
                lemma_pow2_adds(self.mantissa_width as nat, 1);
                lemma_pow2_fits(self.mantissa_width as nat + 1);
            }
            FloatParts::Finite {
                negative,
                significand: self.hidden_bit + mantissa,
                exponent: field as i64 - bias - mw,
            }
        }
    }
}

pub proof fn lemma_floor_log2_unique(m: nat, l: nat)
    requires
        pow2(l) <= m < pow2(l + 1),
    ensures
        floor_log2(m) == l,
{
    lemma_pow2_pos(l);
    lemma_floor_log2_bounds(m);
    let k = floor_log2(m);
    if k < l {
        if k + 1 < l {
            lemma_pow2_strictly_increases(k + 1, l);
        }
    } else if k > l {
        if l + 1 < k {
            lemma_pow2_strictly_increases(l + 1, k);
        }
    }
}

/// With 52 digits to fill, a fraction of 52 digits is kept exactly.
pub proof fn lemma_fraction_bits_exact(f: nat, k: nat)
    requires
        1 <= k,
        f < pow2(k),
    ensures
        fraction_bits(f, k, k) == f,
{
    lemma2_to64();
    vstd::arithmetic::power2::lemma2_to64_rest();
    let k1 = (k - 1) as nat;
    lemma_scaled_div_mod(f, k1, 1);
    assert(k1 + 1 == k);
    lemma_pow2_adds(k1, 1);
    lemma_pow2_pos(k1);
    let scaled = f * pow2(k1);
    assert(scaled / pow2(k) == f / 2);
    assert(scaled % pow2(k) == (f % 2) * pow2(k1));
    if f % 2 == 1 {
        assert(2 * (scaled % pow2(k)) * pow2(53) >= round_third() * pow2(k)) by (nonlinear_arith)
            requires
                scaled % pow2(k) == pow2(k1),
                pow2(k) == pow2(k1) * 2,
                pow2(53) == 0x20_0000_0000_0000,
                round_third() == 6004799503160661,
                pow2(k1) > 0,
        ;
    } else {
        assert(2 * (scaled % pow2(k)) * pow2(53) == 0) by (nonlinear_arith)
            requires
                scaled % pow2(k) == 0,
        ;
        assert(round_third() * pow2(k) > 0) by (nonlinear_arith)
            requires
                pow2(k) > 0,
                round_third() > 0,
        ;
    }
}

} // verus!
