//! A fixed-width 256-bit unsigned integer, as used for proof-of-work targets.
use vstd::arithmetic::power2::pow2;
use vstd::prelude::*;

verus! {

/// The base of one limb, 2^64.
pub open spec fn limb_base() -> nat {
    0x1_0000_0000_0000_0000nat
}

/// 2^256, one more than the largest value a `Uint256` holds.
pub open spec fn uint256_bound() -> nat {
    limb_base() * limb_base() * limb_base() * limb_base()
}

/// An unsigned 256-bit integer held as four 64-bit limbs, most significant first.
#[derive(Debug, Clone, Copy, PartialEq, Eq)]
pub struct Uint256(pub [u64; 4]);

impl Uint256 {
    /// The number this value stands for.
    pub open spec fn value(self) -> nat {
        (((self.0[0] as nat) * limb_base() + (self.0[1] as nat)) * limb_base()
            + (self.0[2] as nat)) * limb_base() + (self.0[3] as nat)
    }

    /// Builds the value from four limbs, most significant first.
    pub fn from_limbs(limbs: [u64; 4]) -> (r: Self)
        ensures
            r.0 == limbs,
    {
        Uint256(limbs)
    }

    /// The number zero.
    pub fn zero() -> (r: Self)
        ensures
            r.value() == 0,
    {
        Uint256([0, 0, 0, 0])
    }

    /// Widens a 64-bit integer.
    pub fn from_u64(n: u64) -> (r: Self)
        ensures
            r.value() == n,
    {
        Uint256([0, 0, 0, n])
    }

    /// Whether the value is zero.
    pub fn is_zero(&self) -> (r: bool)
        ensures
            r == (self.value() == 0),
    {
        proof {
            lemma_value_bounds(*self);
        }
        self.0[0] == 0 && self.0[1] == 0 && self.0[2] == 0 && self.0[3] == 0
    }

    /// The least significant 64 bits.
    pub fn low_u64(&self) -> (r: u64)
        ensures
            r == self.value() % limb_base(),
    {
        let r = self.0[3];
        proof {
            let b = limb_base();
            let hi = ((self.0[0] as nat) * b + (self.0[1] as nat)) * b + (self.0[2] as nat);
            assert(self.value() == hi * b + r);
            vstd::arithmetic::div_mod::lemma_fundamental_div_mod_converse(
                self.value() as int, b as int, hi as int, r as int);
        }
        r
    }
}

/// Every value lies below 2^256, and is zero only when all limbs are.
pub proof fn lemma_value_bounds(x: Uint256)
    ensures
        x.value() < uint256_bound(),
        x.value() == 0 <==> (x.0[0] == 0 && x.0[1] == 0 && x.0[2] == 0 && x.0[3] == 0),
        x.value() >= (x.0[0] as nat) * limb_base() * limb_base() * limb_base(),
{
    let b = limb_base();
    let a0 = x.0[0] as nat;
    let a1 = x.0[1] as nat;
    let a2 = x.0[2] as nat;
    let a3 = x.0[3] as nat;
    assert((a0 * b + a1) * b + a2 < (a0 * b + a1 + 1) * b) by (nonlinear_arith)
        requires a2 < b;
    assert(((a0 * b + a1) * b + a2) * b + a3 < ((a0 * b + a1) * b + a2 + 1) * b) by (nonlinear_arith)
        requires a3 < b;
    assert(x.value() < b * b * b * b) by (nonlinear_arith)
        requires
            a0 < b, a1 < b, a2 < b, a3 < b, b > 0,
            x.value() == ((a0 * b + a1) * b + a2) * b + a3;
    assert(x.value() >= a0 * b * b * b) by (nonlinear_arith)
        requires b > 0, x.value() == ((a0 * b + a1) * b + a2) * b + a3;
    if x.value() == 0 {
        assert(a0 * b * b * b == 0);
        assert(a0 == 0) by (nonlinear_arith) requires a0 * b * b * b == 0, b > 0;
        assert((a1 * b + a2) * b + a3 == 0);
        assert(a1 * b * b == 0) by (nonlinear_arith) requires (a1 * b + a2) * b + a3 == 0, b > 0;
        assert(a1 == 0) by (nonlinear_arith) requires a1 * b * b == 0, b > 0;
        assert(a2 == 0) by (nonlinear_arith) requires a2 * b + a3 == 0, b > 0;
    }
}

impl Uint256 {
    /// Multiplies by a 64-bit integer; the second result is what carried out
    /// past 256 bits.
    pub fn mul_u64(&self, m: u64) -> (r: (Uint256, u64))
        ensures
            self.value() * (m as nat) == r.0.value() + (r.1 as nat) * uint256_bound(),
    {
        let (l3, c3) = mul_limb(self.0[3], m, 0);
        let (l2, c2) = mul_limb(self.0[2], m, c3);
        let (l1, c1) = mul_limb(self.0[1], m, c2);
        let (l0, c0) = mul_limb(self.0[0], m, c1);
        let r = Uint256([l0, l1, l2, l3]);
        proof {
            let b = limb_base();
            let mm = m as nat;
            let (a0, a1, a2, a3) = (self.0[0] as nat, self.0[1] as nat, self.0[2] as nat, self.0[3] as nat);
            let (l0, l1, l2, l3) = (l0 as nat, l1 as nat, l2 as nat, l3 as nat);
            lemma_mul_step(a0, mm, c2 as nat, l0, c0 as nat, b, a1, c1 as nat, l1, b);
            lemma_mul_step(a0 * b + a1, mm, c3 as nat, l0 * b + l1, c0 as nat, b * b, a2, c2 as nat, l2, b);
            lemma_mul_step((a0 * b + a1) * b + a2, mm, 0, (l0 * b + l1) * b + l2, c0 as nat, b * b * b,
                a3, c3 as nat, l3, b);
            assert(b * b * b * b == b * b * b * b);
        }
        (r, c0)
    }

    /// Divides `high * 2^256 + self` by `d`, giving the quotient and the remainder.
    pub fn div_rem_u64(&self, high: u64, d: u64) -> (r: (Uint256, u64))
        requires
            high < d,
        ensures
            (high as nat) * uint256_bound() + self.value() == r.0.value() * (d as nat) + (r.1 as nat),
            r.1 < d,
    {
        let (q0, r0) = div_limb(high, self.0[0], d);
        let (q1, r1) = div_limb(r0, self.0[1], d);
        let (q2, r2) = div_limb(r1, self.0[2], d);
        let (q3, r3) = div_limb(r2, self.0[3], d);
        let q = Uint256([q0, q1, q2, q3]);
        proof {
            let b = limb_base();
            let dd = d as nat;
            let (a0, a1, a2, a3) = (self.0[0] as nat, self.0[1] as nat, self.0[2] as nat, self.0[3] as nat);
            let (q0, q1, q2, q3) = (q0 as nat, q1 as nat, q2 as nat, q3 as nat);
            let h = high as nat;
            lemma_div_step(h * b + a0, q0, r0 as nat, dd, b, a1, q1, r1 as nat);
            lemma_div_step((h * b + a0) * b + a1, q0 * b + q1, r1 as nat, dd, b, a2, q2, r2 as nat);
            lemma_div_step(((h * b + a0) * b + a1) * b + a2, (q0 * b + q1) * b + q2, r2 as nat, dd, b,
                a3, q3, r3 as nat);
            assert(h * (b * b * b * b) + self.value() == (((h * b + a0) * b + a1) * b + a2) * b + a3)
                by (nonlinear_arith)
                requires self.value() == ((a0 * b + a1) * b + a2) * b + a3;
        }
        (q, r3)
    }

    /// Whether `self` is at most `other`.
    pub fn le(&self, other: &Uint256) -> (r: bool)
        ensures
            r == (self.value() <= other.value()),
    {
        proof {
            lemma_lex_order(*self, *other);
        }
        if self.0[0] != other.0[0] {
            self.0[0] < other.0[0]
        } else if self.0[1] != other.0[1] {
            self.0[1] < other.0[1]
        } else if self.0[2] != other.0[2] {
            self.0[2] < other.0[2]
        } else {
            self.0[3] <= other.0[3]
        }
    }
}

/// Values compare as their limbs do, most significant limb first.
proof fn lemma_lex_order(x: Uint256, y: Uint256)
    ensures
        x.0[0] != y.0[0] ==> (x.value() < y.value() <==> x.0[0] < y.0[0]),
        x.0[0] == y.0[0] && x.0[1] != y.0[1] ==> (x.value() < y.value() <==> x.0[1] < y.0[1]),
        x.0[0] == y.0[0] && x.0[1] == y.0[1] && x.0[2] != y.0[2] ==> (x.value() < y.value()
            <==> x.0[2] < y.0[2]),
        x.0[0] == y.0[0] && x.0[1] == y.0[1] && x.0[2] == y.0[2] ==> (x.value() <= y.value()
            <==> x.0[3] <= y.0[3]),
{
    let b = limb_base();
    lemma_step_order(x.0[0] as nat, ((x.0[1] as nat) * b + (x.0[2] as nat)) * b + (x.0[3] as nat),
        y.0[0] as nat, ((y.0[1] as nat) * b + (y.0[2] as nat)) * b + (y.0[3] as nat), b * b * b);
    lemma_step_order((x.0[0] as nat) * b + (x.0[1] as nat), (x.0[2] as nat) * b + (x.0[3] as nat),
        (y.0[0] as nat) * b + (y.0[1] as nat), (y.0[2] as nat) * b + (y.0[3] as nat), b * b);
    lemma_step_order(((x.0[0] as nat) * b + (x.0[1] as nat)) * b + (x.0[2] as nat), x.0[3] as nat,
        ((y.0[0] as nat) * b + (y.0[1] as nat)) * b + (y.0[2] as nat), y.0[3] as nat, b);
    let (a1, a2, a3) = (x.0[1] as nat, x.0[2] as nat, x.0[3] as nat);
    let (c1, c2, c3) = (y.0[1] as nat, y.0[2] as nat, y.0[3] as nat);
    assert((a1 * b + a2) * b + a3 < b * b * b) by (nonlinear_arith)
        requires a1 < b, a2 < b, a3 < b;
    assert((c1 * b + c2) * b + c3 < b * b * b) by (nonlinear_arith)
        requires c1 < b, c2 < b, c3 < b;
    assert(a2 * b + a3 < b * b) by (nonlinear_arith) requires a2 < b, a3 < b;
    assert(c2 * b + c3 < b * b) by (nonlinear_arith) requires c2 < b, c3 < b;
    assert(x.value() == (x.0[0] as nat) * (b * b * b) + ((a1 * b + a2) * b + a3)) by (nonlinear_arith)
        requires x.value() == (((x.0[0] as nat) * b + a1) * b + a2) * b + a3;
    assert(y.value() == (y.0[0] as nat) * (b * b * b) + ((c1 * b + c2) * b + c3)) by (nonlinear_arith)
        requires y.value() == (((y.0[0] as nat) * b + c1) * b + c2) * b + c3;
    assert(x.value() == ((x.0[0] as nat) * b + a1) * (b * b) + (a2 * b + a3)) by (nonlinear_arith)
        requires x.value() == (((x.0[0] as nat) * b + a1) * b + a2) * b + a3;
    assert(y.value() == ((y.0[0] as nat) * b + c1) * (b * b) + (c2 * b + c3)) by (nonlinear_arith)
        requires y.value() == (((y.0[0] as nat) * b + c1) * b + c2) * b + c3;
}

/// With `lo < base`, numbers of the form `hi * base + lo` compare by `hi` first.
proof fn lemma_step_order(xh: nat, xl: nat, yh: nat, yl: nat, base: nat)
    requires
        xl < base,
        yl < base,
    ensures
        xh < yh ==> xh * base + xl < yh * base + yl,
        xh > yh ==> xh * base + xl > yh * base + yl,
{
    if xh < yh {
        assert(xh * base + xl < yh * base + yl) by (nonlinear_arith)
            requires xh < yh, xl < base, yl >= 0;
    }
    if xh > yh {
        assert(xh * base + xl > yh * base + yl) by (nonlinear_arith)
            requires xh > yh, yl < base, xl >= 0;
    }
}

/// Carrying one more limb through a product: if `x * m + c == l + hc * k` and
/// `a * m + c2 == lo + c * b`, then `(x * b + a) * m + c2 == (l * b + lo) + hc * (k * b)`.
proof fn lemma_mul_step(x: nat, m: nat, c2: nat, l: nat, hc: nat, k: nat, a: nat, c: nat, lo: nat, b: nat)
    requires
        x * m + c == l + hc * k,
        a * m + c2 == lo + c * b,
    ensures
        (x * b + a) * m + c2 == (l * b + lo) + hc * (k * b),
{
    assert((x * b + a) * m + c2 == (x * m) * b + (a * m + c2)) by (nonlinear_arith);
    assert((x * m + c) * b == (l + hc * k) * b);
    assert((x * m) * b + c * b == l * b + hc * (k * b)) by (nonlinear_arith)
        requires (x * m + c) * b == (l + hc * k) * b;
}

/// Bringing one more limb down in a long division: if `x == q * d + r` and
/// `r * b + a == q2 * d + r2`, then `x * b + a == (q * b + q2) * d + r2`.
proof fn lemma_div_step(x: nat, q: nat, r: nat, d: nat, b: nat, a: nat, q2: nat, r2: nat)
    requires
        x == q * d + r,
        r * b + a == q2 * d + r2,
    ensures
        x * b + a == (q * b + q2) * d + r2,
{
    assert(x * b == (q * d) * b + r * b) by (nonlinear_arith) requires x == q * d + r;
    assert((q * b + q2) * d == (q * d) * b + q2 * d) by (nonlinear_arith);
}

/// One step of multiplying by a limb: `a * m + carry == lo + hi * 2^64`.
fn mul_limb(a: u64, m: u64, carry: u64) -> (r: (u64, u64))
    ensures
        (a as nat) * (m as nat) + (carry as nat) == (r.0 as nat) + (r.1 as nat) * limb_base(),
{
    assert((a as nat) * (m as nat) <= 0xffff_ffff_ffff_ffffnat * 0xffff_ffff_ffff_ffffnat)
        by (nonlinear_arith) requires a <= 0xffff_ffff_ffff_ffffu64, m <= 0xffff_ffff_ffff_ffffu64;
    let p: u128 = (a as u128) * (m as u128) + (carry as u128);
    let lo = (p % 0x1_0000_0000_0000_0000u128) as u64;
    let hi = (p / 0x1_0000_0000_0000_0000u128) as u64;
    (lo, hi)
}

/// One step of dividing by a limb: `rem * 2^64 + a == q * d + r` with `r < d`.
fn div_limb(rem: u64, a: u64, d: u64) -> (r: (u64, u64))
    requires
        rem < d,
    ensures
        (rem as nat) * limb_base() + (a as nat) == (r.0 as nat) * (d as nat) + (r.1 as nat),
        r.1 < d,
{
    let n: u128 = (rem as u128) * 0x1_0000_0000_0000_0000u128 + (a as u128);
    let dd: u128 = d as u128;
    let q: u128 = n / dd;
    let r: u128 = n % dd;
    proof {
        let b = limb_base() as int;
        assert(n == (rem as int) * b + (a as int));
        vstd::arithmetic::div_mod::lemma_fundamental_div_mod(n as int, dd as int);
        assert((n as int) < ((rem as int) + 1) * b) by (nonlinear_arith)
            requires n == (rem as int) * b + (a as int), (a as int) < b;
        assert((n as int) < (d as int) * b) by (nonlinear_arith)
            requires (n as int) < ((rem as int) + 1) * b, (rem as int) < (d as int), b > 0;
        assert((q as int) < b) by (nonlinear_arith)
            requires (n as int) < (d as int) * b, n == dd * q + r, r >= 0, dd == d, d > 0;
        assert((rem as nat) * limb_base() + (a as nat) == (q as nat) * (d as nat) + (r as nat))
            by (nonlinear_arith)
            requires n == (rem as int) * b + (a as int), n == dd * q + r, dd == d, b == limb_base();
    }
    (q as u64, r as u64)
}


/// `256^e`.
pub open spec fn pow256(e: nat) -> nat
    decreases e,
{
    if e == 0 {
        1
    } else {
        256 * pow256((e - 1) as nat)
    }
}

/// The number of bytes needed to write `n`, without leading zero bytes.
pub open spec fn byte_len(n: nat) -> nat
    decreases n,
{
    if n == 0 {
        0
    } else {
        1 + byte_len(n / 256)
    }
}

/// The exponent byte of a compact target: its count of mantissa bytes.
pub open spec fn compact_exponent(bits: u32) -> nat {
    (bits / 0x100_0000) as nat
}

/// The 23-bit magnitude of a compact target's mantissa.
pub open spec fn compact_mantissa(bits: u32) -> nat {
    (bits % 0x80_0000) as nat
}

/// Whether the sign bit of a compact target's mantissa is set.
pub open spec fn compact_negative(bits: u32) -> bool {
    (bits / 0x80_0000) % 2 == 1
}

/// The number a compact target stands for: its mantissa scaled by 256 to the
/// power of the exponent less three, truncated where that power is negative.
pub open spec fn compact_value(bits: u32) -> nat {
    let e = compact_exponent(bits);
    let m = compact_mantissa(bits);
    if e <= 3 {
        m / pow256((3 - e) as nat)
    } else {
        m * pow256((e - 3) as nat)
    }
}

/// The three significant bytes of `n` as the compact form keeps them.
pub open spec fn compact_digits(n: nat) -> nat {
    let s = byte_len(n);
    if s <= 3 {
        n * pow256((3 - s) as nat)
    } else {
        n / pow256((s - 3) as nat)
    }
}

/// The compact form of `n`: three significant bytes and a byte count, with one
/// more byte of exponent where the top mantissa bit would read as a sign.
pub open spec fn compact_of(n: nat) -> nat {
    let s = byte_len(n);
    let d = compact_digits(n);
    if d >= 0x80_0000 {
        (s + 1) * 0x100_0000 + d / 256
    } else {
        s * 0x100_0000 + d
    }
}

/// Why a compact target does not stand for a valid target.
#[derive(Debug, Clone, Copy, PartialEq, Eq, Structural)]
pub enum CompactError {
    /// The sign bit of the mantissa is set.
    Negative,
    /// The number does not fit in 256 bits.
    Overflow,
}

pub proof fn lemma_pow256_positive(e: nat)
    ensures
        pow256(e) > 0,
    decreases e,
{
    if e > 0 {
        lemma_pow256_positive((e - 1) as nat);
    }
}

pub proof fn lemma_pow256_monotone(i: nat, j: nat)
    requires
        i <= j,
    ensures
        pow256(i) <= pow256(j),
    decreases j,
{
    if i < j {
        lemma_pow256_monotone(i, (j - 1) as nat);
    }
}

/// 2^256 is 256^32.
pub proof fn lemma_bound_is_pow256()
    ensures
        uint256_bound() == pow256(32),
{
    reveal_with_fuel(pow256, 9);
    assert(pow256(8) == limb_base());
    lemma_pow256_add(8, 8);
    lemma_pow256_add(16, 8);
    lemma_pow256_add(24, 8);
}

pub proof fn lemma_pow256_add(a: nat, b: nat)
    ensures
        pow256(a + b) == pow256(a) * pow256(b),
    decreases a,
{
    if a > 0 {
        lemma_pow256_add((a - 1) as nat, b);
        let pa = pow256((a - 1) as nat);
        let pb = pow256(b);
        assert((a + b - 1) as nat == ((a - 1) as nat) + b);
        assert(pow256(a + b) == 256 * pow256(((a - 1) as nat) + b));
        assert(pow256(a) == 256 * pa);
        assert(256 * (pa * pb) == (256 * pa) * pb) by (nonlinear_arith);
    } else {
        assert(pow256(a) == 1);
        assert(a + b == b);
    }
}

/// `n` takes exactly `byte_len(n)` bytes.
pub proof fn lemma_byte_len_bounds(n: nat)
    ensures
        n < pow256(byte_len(n)),
        n > 0 ==> pow256((byte_len(n) - 1) as nat) <= n,
    decreases n,
{
    if n > 0 {
        lemma_byte_len_bounds(n / 256);
        let p = pow256(byte_len(n / 256));
        assert(n < 256 * p) by (nonlinear_arith)
            requires n / 256 < p, n == 256 * (n / 256) + n % 256, n % 256 < 256;
        if n / 256 > 0 {
            assert(256 * pow256((byte_len(n / 256) - 1) as nat) <= n) by (nonlinear_arith)
                requires pow256((byte_len(n / 256) - 1) as nat) <= n / 256,
                    n == 256 * (n / 256) + n % 256, n % 256 >= 0;
        }
    }
}

/// Below `256^k` a number takes at most `k` bytes.
pub proof fn lemma_byte_len_at_most(n: nat, k: nat)
    requires
        n < pow256(k),
    ensures
        byte_len(n) <= k,
    decreases k,
{
    if n > 0 {
        if k == 0 {
            assert(false);
        } else {
            assert(n / 256 < pow256((k - 1) as nat)) by (nonlinear_arith)
                requires n < 256 * pow256((k - 1) as nat), n == 256 * (n / 256) + n % 256, n % 256 >= 0;
            lemma_byte_len_at_most(n / 256, (k - 1) as nat);
        }
    }
}

impl Uint256 {
    /// Reads a compact ("bits") target.
    pub fn from_compact(bits: u32) -> (r: Result<Uint256, CompactError>)
        ensures
            compact_negative(bits) ==> r == Err::<Uint256, CompactError>(CompactError::Negative),
            !compact_negative(bits) && compact_value(bits) >= uint256_bound()
                ==> r == Err::<Uint256, CompactError>(CompactError::Overflow),
            !compact_negative(bits) && compact_value(bits) < uint256_bound() ==> (r is Ok
                && r->Ok_0.value() == compact_value(bits)),
    {
        let e: u32 = bits / 0x100_0000;
        let m: u32 = bits % 0x80_0000;
        if (bits / 0x80_0000) % 2 == 1 {
            return Err(CompactError::Negative);
        }
        proof {
            reveal_with_fuel(pow256, 4);
            assert(pow256(0) == 1 && pow256(1) == 256 && pow256(2) == 0x1_0000 && pow256(3) == 0x100_0000);
            lemma_bound_is_pow256();
            lemma_pow256_monotone(3, 32);
        }
        if e <= 3 {
            let w: u32 = if e == 0 {
                m / 0x100_0000
            } else if e == 1 {
                m / 0x1_0000
            } else if e == 2 {
                m / 0x100
            } else {
                m
            };
            assert(e as nat == compact_exponent(bits));
            assert(m as nat == compact_mantissa(bits));
            assert(e == 0 ==> (3 - e) as nat == 3nat);
            assert(e == 1 ==> (3 - e) as nat == 2nat);
            assert(e == 2 ==> (3 - e) as nat == 1nat);
            assert(e == 3 ==> (3 - e) as nat == 0nat);
            assert(w == compact_mantissa(bits) / pow256((3 - compact_exponent(bits)) as nat));
            assert(w == compact_value(bits));
            assert((w as nat) < uint256_bound());
            return Ok(Uint256::from_u64(w as u64));
        }
        let mut x = Uint256::from_u64(m as u64);
        let mut k: u32 = 0;
        while k < e - 3
            invariant
                e > 3,
                e == compact_exponent(bits),
                m == compact_mantissa(bits),
                !compact_negative(bits),
                k <= e - 3,
                x.value() == (m as nat) * pow256(k as nat),
            decreases e - 3 - k,
        {
            let (y, c) = x.mul_u64(256);
            if c != 0 {
                proof {
                    assert(y.value() + (c as nat) * uint256_bound() >= uint256_bound()) by (nonlinear_arith)
                        requires c >= 1;
                    lemma_pow256_monotone((k + 1) as nat, (e - 3) as nat);
                    assert((m as nat) * pow256((k + 1) as nat) == x.value() * 256) by (nonlinear_arith)
                        requires x.value() == (m as nat) * pow256(k as nat),
                            pow256((k + 1) as nat) == 256 * pow256(k as nat);
                    assert((m as nat) * pow256((k + 1) as nat) <= (m as nat) * pow256((e - 3) as nat))
                        by (nonlinear_arith)
                        requires pow256((k + 1) as nat) <= pow256((e - 3) as nat);
                }
                return Err(CompactError::Overflow);
            }
            proof {
                assert((c as nat) * uint256_bound() == 0) by (nonlinear_arith) requires c == 0;
                assert(y.value() == (m as nat) * pow256((k + 1) as nat)) by (nonlinear_arith)
                    requires y.value() == x.value() * 256, x.value() == (m as nat) * pow256(k as nat),
                        pow256((k + 1) as nat) == 256 * pow256(k as nat);
            }
            x = y;
            k = k + 1;
        }
        proof {
            lemma_value_bounds(x);
        }
        Ok(x)
    }
}


impl Uint256 {
    /// Divides by 256.
    fn shr_byte(&self) -> (r: Uint256)
        ensures
            r.value() == self.value() / 256,
    {
        let (q, rem) = self.div_rem_u64(0, 256);
        proof {
            vstd::arithmetic::div_mod::lemma_fundamental_div_mod_converse(
                self.value() as int, 256, q.value() as int, rem as int);
        }
        q
    }

    /// Writes the value in compact ("bits") form, keeping its three most
    /// significant bytes.
    pub fn to_compact(&self) -> (r: u32)
        ensures
            r as nat == compact_of(self.value()),
    {
        let ghost v = self.value();
        let mut x = *self;
        let mut s: u32 = 0;
        proof {
            lemma_value_bounds(*self);
            lemma_bound_is_pow256();
            lemma_byte_len_at_most(v, 32);
        }
        while !x.is_zero()
            invariant
                byte_len(v) == s as nat + byte_len(x.value()),
                byte_len(v) <= 32,
            decreases x.value(),
        {
            x = x.shr_byte();
            s = s + 1;
        }
        proof {
            lemma_byte_len_bounds(v);
            reveal_with_fuel(pow256, 4);
            assert(pow256(3) == 0x100_0000);
        }
        let mut digits: u64;
        if s <= 3 {
            proof {
                lemma_pow256_monotone(s as nat, 3);
                lemma_value_bounds(*self);
            }
            digits = self.low_u64();
            proof {
                vstd::arithmetic::div_mod::lemma_small_mod(v, limb_base());
                assert(pow256(0) == 1);
                assert((s - s) as nat == 0nat);
                assert(digits as nat == v * pow256((s - s) as nat));
            }
            let mut k: u32 = s;
            while k < 3
                invariant
                    s <= k <= 3,
                    pow256(3) == 0x100_0000,
                    s as nat == byte_len(v),
                    v < pow256(s as nat),
                    digits as nat == v * pow256((k - s) as nat),
                    digits < pow256(k as nat),
                decreases 3 - k,
            {
                proof {
                    lemma_pow256_monotone((k + 1) as nat, 3);
                    assert((k + 1 - s) as nat == ((k - s) as nat) + 1);
                    assert(v * pow256(((k - s) as nat) + 1) == digits as nat * 256) by (nonlinear_arith)
                        requires digits as nat == v * pow256((k - s) as nat),
                            pow256(((k - s) as nat) + 1) == 256 * pow256((k - s) as nat);
                    assert(pow256((k + 1) as nat) == 256 * pow256(k as nat));
                    assert(digits as nat * 256 < pow256((k + 1) as nat)) by (nonlinear_arith)
                        requires digits < pow256(k as nat), pow256((k + 1) as nat) == 256 * pow256(k as nat);
                }
                digits = digits * 256;
                k = k + 1;
            }
        } else {
            let mut y = *self;
            let mut k: u32 = 0;
            assert(pow256(0) == 1);
            assert(v / 1 == v);
            while k < s - 3
                invariant
                    s > 3,
                    s as nat == byte_len(v),
                    v < pow256(s as nat),
                    k <= s - 3,
                    y.value() == v / pow256(k as nat),
                decreases s - 3 - k,
            {
                proof {
                    lemma_pow256_positive(k as nat);
                    vstd::arithmetic::div_mod::lemma_div_denominator(v as int, pow256(k as nat) as int, 256);
                    assert(pow256((k + 1) as nat) == pow256(k as nat) * 256);
                }
                y = y.shr_byte();
                k = k + 1;
            }
            proof {
                lemma_pow256_add(3, (s - 3) as nat);
                lemma_pow256_positive((s - 3) as nat);
                let p = pow256((s - 3) as nat);
                vstd::arithmetic::div_mod::lemma_fundamental_div_mod(v as int, p as int);
                assert(v / p < pow256(3)) by (nonlinear_arith)
                    requires v < pow256(3) * p, v == p * (v / p) + v % p, v % p >= 0, p > 0;
                lemma_value_bounds(y);
                vstd::arithmetic::div_mod::lemma_small_mod(y.value(), limb_base());
            }
            digits = y.low_u64();
        }
        assert(digits as nat == compact_digits(v));
        if digits >= 0x80_0000 {
            ((s + 1) * 0x100_0000) + (digits / 256) as u32
        } else {
            s * 0x100_0000 + digits as u32
        }
    }
}


/// Reading a compact form back: exponent `e`, mantissa `m` below 2^23, sign clear.
proof fn lemma_compact_fields(b: u32, e: nat, m: nat)
    requires
        m < 0x80_0000,
        b as nat == e * 0x100_0000 + m,
    ensures
        compact_exponent(b) == e,
        compact_mantissa(b) == m,
        !compact_negative(b),
{
    vstd::arithmetic::div_mod::lemma_fundamental_div_mod_converse(b as int, 0x100_0000, e as int, m as int);
    vstd::arithmetic::div_mod::lemma_fundamental_div_mod_converse(b as int, 0x80_0000, (2 * e) as int, m as int);
}

/// `(n * k) / k == n` and `(n / k) * k <= n` for positive `k`.
proof fn lemma_scale_facts(n: nat, k: nat)
    requires
        k > 0,
    ensures
        (n * k) / k == n,
        (n / k) * k <= n,
{
    vstd::arithmetic::div_mod::lemma_div_multiples_vanish(n as int, k as int);
    assert(k * n == n * k) by (nonlinear_arith);
    vstd::arithmetic::div_mod::lemma_fundamental_div_mod(n as int, k as int);
    assert((n / k) * k == k * (n / k)) by (nonlinear_arith);
}

/// Writing a value in compact form and reading it back gives a valid target no
/// greater than the value, and the value itself where it is below 2^23.
pub proof fn lemma_compact_round_trip(x: Uint256)
    ensures
        compact_of(x.value()) < 0x1_0000_0000,
        !compact_negative(compact_of(x.value()) as u32),
        compact_value(compact_of(x.value()) as u32) <= x.value(),
        x.value() < 0x80_0000 ==> compact_value(compact_of(x.value()) as u32) == x.value(),
{
    let v = x.value();
    let s = byte_len(v);
    let d = compact_digits(v);
    lemma_value_bounds(x);
    lemma_bound_is_pow256();
    lemma_byte_len_at_most(v, 32);
    lemma_byte_len_bounds(v);
    reveal_with_fuel(pow256, 4);
    assert(pow256(0) == 1 && pow256(1) == 256 && pow256(2) == 0x1_0000 && pow256(3) == 0x100_0000);
    if v < 0x80_0000 {
        lemma_byte_len_at_most(v, 3);
    }
    // The kept digits fit in three bytes.
    if s <= 3 {
        let p = pow256((3 - s) as nat);
        lemma_pow256_add(s, (3 - s) as nat);
        lemma_pow256_positive((3 - s) as nat);
        assert(d == v * p);
        assert(v * p < pow256(s) * p) by (nonlinear_arith) requires v < pow256(s), p > 0;
        lemma_scale_facts(v, p);
    } else {
        let p = pow256((s - 3) as nat);
        lemma_pow256_add(3, (s - 3) as nat);
        lemma_pow256_positive((s - 3) as nat);
        vstd::arithmetic::div_mod::lemma_fundamental_div_mod(v as int, p as int);
        assert(v / p < pow256(3)) by (nonlinear_arith)
            requires v < pow256(3) * p, v == p * (v / p) + v % p, v % p >= 0, p > 0;
        lemma_scale_facts(v, p);
    }
    assert(d < 0x100_0000);
    let b = compact_of(v);
    if d < 0x80_0000 {
        assert(b == s * 0x100_0000 + d);
        lemma_compact_fields(b as u32, s, d);
        if s > 3 {
            assert(compact_value(b as u32) == d * pow256((s - 3) as nat));
        }
    } else {
        let m = d / 256;
        assert(b == (s + 1) * 0x100_0000 + m);
        lemma_compact_fields(b as u32, s + 1, m);
        if s + 1 <= 3 {
            let p = pow256((2 - s) as nat);
            lemma_pow256_positive((2 - s) as nat);
            assert(pow256((3 - s) as nat) == 256 * p);
            vstd::arithmetic::div_mod::lemma_div_denominator(d as int, 256, p as int);
            assert(compact_value(b as u32) == m / p);
            assert(m / p == d / pow256((3 - s) as nat));
        } else {
            let p = pow256((s - 3) as nat);
            lemma_pow256_positive((s - 3) as nat);
            if s == 3 {
                assert((s - 3) as nat == 0nat);
                assert(p == 1);
                assert(d == v * 1);
                assert(v / 1 == v);
            }
            assert(d == v / p);
            assert(pow256((s - 2) as nat) == 256 * p);
            vstd::arithmetic::div_mod::lemma_div_denominator(v as int, p as int, 256);
            assert(p * 256 == 256 * p);
            assert(m == v / pow256((s - 2) as nat));
            assert(compact_value(b as u32) == m * pow256((s - 2) as nat));
            lemma_pow256_positive((s - 2) as nat);
            lemma_scale_facts(v, pow256((s - 2) as nat));
        }
    }
}


/// 2^256 as a power of two.
pub proof fn lemma_bound_is_pow2()
    ensures
        uint256_bound() == pow2(256),
{
    vstd::arithmetic::power2::lemma2_to64();
    vstd::arithmetic::power2::lemma_pow2_adds(64, 64);
    vstd::arithmetic::power2::lemma_pow2_adds(128, 64);
    vstd::arithmetic::power2::lemma_pow2_adds(192, 64);
}

impl Uint256 {
    /// Shifts left by `n` bits; bits shifted past the top are lost.
    pub fn shl(&self, n: u32) -> (r: Uint256)
        ensures
            r.value() == (self.value() * pow2(n as nat)) % uint256_bound(),
    {
        let ghost v = self.value();
        let ghost bound = uint256_bound() as int;
        let steps: u32 = if n > 256 {
            256
        } else {
            n
        };
        let mut x = *self;
        let mut k: u32 = 0;
        proof {
            lemma_value_bounds(*self);
            vstd::arithmetic::power2::lemma2_to64();
            vstd::arithmetic::div_mod::lemma_small_mod(v, uint256_bound());
        }
        while k < steps
            invariant
                k <= steps <= 256,
                bound == uint256_bound(),
                v == self.value(),
                x.value() == (v * pow2(k as nat)) % uint256_bound(),
            decreases steps - k,
        {
            let (y, c) = x.mul_u64(2);
            proof {
                lemma_value_bounds(y);
                vstd::arithmetic::div_mod::lemma_fundamental_div_mod_converse(
                    (x.value() * 2) as int, bound, c as int, y.value() as int);
                vstd::arithmetic::div_mod::lemma_mul_mod_noop_left((v * pow2(k as nat)) as int, 2, bound);
                vstd::arithmetic::power2::lemma_pow2_unfold((k + 1) as nat);
                assert(v * pow2((k + 1) as nat) == (v * pow2(k as nat)) * 2) by (nonlinear_arith)
                    requires pow2((k + 1) as nat) == 2 * pow2(k as nat);
            }
            x = y;
            k = k + 1;
        }
        proof {
            if n > 256 {
                lemma_bound_is_pow2();
                vstd::arithmetic::power2::lemma_pow2_adds(256, (n - 256) as nat);
                let q = v * pow2((n - 256) as nat);
                assert(v * pow2(n as nat) == q * bound) by (nonlinear_arith)
                    requires pow2(n as nat) == pow2(256) * pow2((n - 256) as nat), bound == pow2(256),
                        q == v * pow2((n - 256) as nat);
                vstd::arithmetic::div_mod::lemma_mod_multiples_basic(q as int, bound);
                vstd::arithmetic::div_mod::lemma_mod_multiples_basic(v as int, bound);
            }
        }
        x
    }

    /// Shifts right by `n` bits.
    pub fn shr(&self, n: u32) -> (r: Uint256)
        ensures
            r.value() == self.value() / pow2(n as nat),
    {
        let ghost v = self.value();
        let steps: u32 = if n > 256 {
            256
        } else {
            n
        };
        let mut x = *self;
        let mut k: u32 = 0;
        proof {
            vstd::arithmetic::power2::lemma2_to64();
        }
        while k < steps
            invariant
                k <= steps <= 256,
                v == self.value(),
                x.value() == v / pow2(k as nat),
            decreases steps - k,
        {
            let (y, rem) = x.div_rem_u64(0, 2);
            proof {
                vstd::arithmetic::div_mod::lemma_fundamental_div_mod_converse(
                    x.value() as int, 2, y.value() as int, rem as int);
                vstd::arithmetic::power2::lemma_pow2_pos(k as nat);
                vstd::arithmetic::div_mod::lemma_div_denominator(v as int, pow2(k as nat) as int, 2);
                vstd::arithmetic::power2::lemma_pow2_unfold((k + 1) as nat);
            }
            x = y;
            k = k + 1;
        }
        proof {
            if n > 256 {
                lemma_value_bounds(*self);
                lemma_bound_is_pow2();
                vstd::arithmetic::power2::lemma_pow2_strictly_increases(256, n as nat);
                vstd::arithmetic::div_mod::lemma_basic_div(v as int, pow2(n as nat) as int);
                vstd::arithmetic::div_mod::lemma_basic_div(v as int, pow2(256) as int);
            }
        }
        x
    }
}

} // verus!
