//! Exact base-10 numbers: a signed mantissa of at most 96 bits and a scale
//! of at most 28 fractional digits, the representation of `rust_decimal`.
//! Reading, normalizing and rounding go through `rust_decimal`. Sums and
//! shares are computed here on the mantissas, exactly: where the exact
//! result does not fit the representation they are refused, never rounded.

use vstd::prelude::*;

verus! {

/// Largest mantissa magnitude: 2^96 - 1.
pub const MAX_MANTISSA: i128 = 79228162514264337593543950335;

/// Largest number of fractional digits.
pub const MAX_SCALE: u32 = 28;

/// `10^n`.
pub open spec fn pow10(n: nat) -> int
    decreases n,
{
    if n == 0 {
        1
    } else {
        10 * pow10((n - 1) as nat)
    }
}

pub proof fn lemma_pow10_pos(n: nat)
    ensures
        pow10(n) >= 1,
    decreases n,
{
    if n > 0 {
        lemma_pow10_pos((n - 1) as nat);
    }
}

pub proof fn lemma_pow10_add(a: nat, b: nat)
    ensures
        pow10(a + b) == pow10(a) * pow10(b),
    decreases a,
{
    if a > 0 {
        lemma_pow10_add((a - 1) as nat, b);
        assert(pow10(a + b) == 10 * pow10((a - 1 + b) as nat));
        assert(10 * (pow10((a - 1) as nat) * pow10(b)) == (10 * pow10((a - 1) as nat)) * pow10(
            b,
        )) by (nonlinear_arith);
    }
}

pub proof fn lemma_pow10_mono(a: nat, b: nat)
    requires
        a <= b,
    ensures
        pow10(a) <= pow10(b),
{
    lemma_pow10_add(a, (b - a) as nat);
    lemma_pow10_pos(a);
    lemma_pow10_pos((b - a) as nat);
    assert(pow10(a) * pow10((b - a) as nat) >= pow10(a) * 1) by (nonlinear_arith)
        requires
            pow10((b - a) as nat) >= 1,
            pow10(a) >= 1,
    ;
}

pub proof fn lemma_pow10_38()
    ensures
        pow10(38) == 100000000000000000000000000000000000000,
{
    reveal_with_fuel(pow10, 39);
}

/// `10^n` as a machine integer.
pub fn pow10_i128(n: u32) -> (r: i128)
    requires
        n <= 38,
    ensures
        r as int == pow10(n as nat),
{
    let mut r: i128 = 1;
    let mut i: u32 = 0;
    while i < n
        invariant
            i <= n <= 38,
            r as int == pow10(i as nat),
        decreases n - i,
    {
        proof {
            lemma_pow10_mono((i + 1) as nat, 38);
            lemma_pow10_38();
            assert(pow10((i + 1) as nat) == 10 * pow10(i as nat));
            lemma_pow10_pos(i as nat);
        }
        r = r * 10;
        i = i + 1;
    }
    r
}

/// A decimal number `mantissa / 10^scale`.
#[derive(Clone, Copy, Debug, PartialEq, Eq, Structural)]
pub struct Dec {
    pub mantissa: i128,
    pub scale: u32,
}

impl Dec {
    /// Mantissa and scale are within the representable range.
    pub open spec fn wf(self) -> bool {
        -MAX_MANTISSA <= self.mantissa <= MAX_MANTISSA && self.scale <= MAX_SCALE
    }

    /// The value counted in units of `10^-28`; exact for well-formed numbers.
    pub open spec fn units(self) -> int {
        self.mantissa * pow10((MAX_SCALE - self.scale) as nat)
    }

    /// No trailing fractional zero: the shortest representation of the value.
    pub open spec fn is_normal(self) -> bool {
        self.scale == 0 || self.mantissa % 10 != 0
    }

    /// The number zero.
    pub fn zero() -> (r: Dec)
        ensures
            r.wf(),
            r.is_normal(),
            r.units() == 0,
            r.scale == 0,
    {
        Dec { mantissa: 0, scale: 0 }
    }
}


/// Sum of the values of `s`, in units of `10^-28`.
pub open spec fn sum_units(s: Seq<Dec>) -> int
    decreases s.len(),
{
    if s.len() == 0 {
        0
    } else {
        sum_units(s.drop_last()) + s.last().units()
    }
}

/// A mantissa within the 96-bit range.
pub open spec fn fits(m: int) -> bool {
    -MAX_MANTISSA <= m <= MAX_MANTISSA
}

/// The exact sum's mantissa at the larger of the two scales.
pub open spec fn aligned_sum(a: Dec, b: Dec) -> int {
    if a.scale <= b.scale {
        a.mantissa * pow10((b.scale - a.scale) as nat) + b.mantissa
    } else {
        a.mantissa + b.mantissa * pow10((a.scale - b.scale) as nat)
    }
}

/// The larger of the two scales.
pub open spec fn larger_scale(a: Dec, b: Dec) -> u32 {
    if a.scale <= b.scale {
        b.scale
    } else {
        a.scale
    }
}

/// The exact sum at the larger scale, when its mantissa fits.
pub open spec fn sum_of(a: Dec, b: Dec) -> Option<Dec> {
    if fits(aligned_sum(a, b)) {
        Some(Dec { mantissa: aligned_sum(a, b) as i128, scale: larger_scale(a, b) })
    } else {
        None
    }
}

/// Exactly `a / 100 * t`, when its mantissa and scale fit.
pub open spec fn share_of(a: Dec, t: Dec) -> Option<Dec> {
    if a.scale + t.scale + 2 <= MAX_SCALE && fits(a.mantissa * t.mantissa) {
        Some(Dec { mantissa: (a.mantissa * t.mantissa) as i128, scale: (a.scale + t.scale + 2) as u32 })
    } else {
        None
    }
}

/// The shortest representation of the value of `d`.
pub open spec fn normal_of(d: Dec) -> Dec {
    choose|e: Dec| e.wf() && e.is_normal() && e.units() == d.units()
}

/// Two shortest representations of one value are the same.
pub proof fn lemma_normal_unique(e1: Dec, e2: Dec)
    requires
        e1.wf(),
        e2.wf(),
        e1.is_normal(),
        e2.is_normal(),
        e1.units() == e2.units(),
    ensures
        e1 == e2,
{
    if e1.scale <= e2.scale {
        lemma_normal_unique_ordered(e1, e2);
    } else {
        lemma_normal_unique_ordered(e2, e1);
    }
}

proof fn lemma_normal_unique_ordered(e1: Dec, e2: Dec)
    requires
        e1.wf(),
        e2.wf(),
        e1.is_normal(),
        e2.is_normal(),
        e1.units() == e2.units(),
        e1.scale <= e2.scale,
    ensures
        e1 == e2,
{
    let k = (e2.scale - e1.scale) as nat;
    let b = pow10((MAX_SCALE - e2.scale) as nat);
    let a = pow10(k);
    lemma_pow10_add(k, (MAX_SCALE - e2.scale) as nat);
    assert(k + (MAX_SCALE - e2.scale) as nat == (MAX_SCALE - e1.scale) as nat);
    lemma_pow10_pos((MAX_SCALE - e2.scale) as nat);
    assert(e1.units() == e1.mantissa * (a * b));
    assert(e1.mantissa * a == e2.mantissa) by (nonlinear_arith)
        requires
            e1.mantissa * (a * b) == e2.mantissa * b,
            b >= 1,
    ;
    if k > 0 {
        assert(a == 10 * pow10((k - 1) as nat));
        let q = e1.mantissa * pow10((k - 1) as nat);
        assert(e2.mantissa == 10 * q) by (nonlinear_arith)
            requires
                e2.mantissa == e1.mantissa * a,
                a == 10 * pow10((k - 1) as nat),
                q == e1.mantissa * pow10((k - 1) as nat),
        ;
        assert((10 * q) % 10 == 0) by (nonlinear_arith);
    } else {
        assert(a == 1);
    }
}

/// Banker's rounding of `m / p` for `m >= 0`, `p >= 1`: to the nearest
/// integer, and to the even one of two equally near.
pub open spec fn half_even(m: int, p: int) -> int {
    let q = m / p;
    let rem = m % p;
    if 2 * rem > p || (2 * rem == p && q % 2 == 1) {
        q + 1
    } else {
        q
    }
}

/// The aligned sum counts the exact sum in steps of `10^-s`, `s` the larger
/// scale.
pub proof fn lemma_aligned_sum(a: Dec, b: Dec)
    requires
        a.wf(),
        b.wf(),
    ensures
        aligned_sum(a, b) * pow10((MAX_SCALE - (if a.scale <= b.scale {
            b.scale
        } else {
            a.scale
        })) as nat) == a.units() + b.units(),
{
    if a.scale <= b.scale {
        lemma_shift_units(a.mantissa as int, (b.scale - a.scale) as nat, (MAX_SCALE - b.scale) as nat);
        let x = a.mantissa * pow10((b.scale - a.scale) as nat);
        let q = pow10((MAX_SCALE - b.scale) as nat);
        assert(aligned_sum(a, b) == x + b.mantissa);
        assert((x + b.mantissa) * q == x * q + b.mantissa * q) by (nonlinear_arith);
        assert((b.scale - a.scale) as nat + (MAX_SCALE - b.scale) as nat == (MAX_SCALE - a.scale) as nat);
    } else {
        lemma_shift_units(b.mantissa as int, (a.scale - b.scale) as nat, (MAX_SCALE - a.scale) as nat);
        let x = b.mantissa * pow10((a.scale - b.scale) as nat);
        let q = pow10((MAX_SCALE - a.scale) as nat);
        assert(aligned_sum(a, b) == a.mantissa + x);
        assert((a.mantissa + x) * q == a.mantissa * q + x * q) by (nonlinear_arith);
        assert((a.scale - b.scale) as nat + (MAX_SCALE - a.scale) as nat == (MAX_SCALE - b.scale) as nat);
    }
}

/// A count of units within `10^50`, in steps of at least `10^-6`, fits a
/// mantissa.
pub proof fn lemma_small_fits(x: int, k: nat, u: int)
    requires
        k >= 22,
        x * pow10(k) == u,
        -pow10(50) <= u <= pow10(50),
    ensures
        fits(x),
{
    lemma_pow10_add(22, (k - 22) as nat);
    lemma_pow10_add(28, 22);
    lemma_pow10_pos((k - 22) as nat);
    lemma_pow10_pos(22);
    assert(pow10(28) == 10000000000000000000000000000) by {
        reveal_with_fuel(pow10, 29);
    }
    let p = pow10(k);
    let q = pow10(22);
    let c = pow10(28);
    assert(c >= 1);
    assert(p >= q) by (nonlinear_arith)
        requires
            p == q * pow10((k - 22) as nat),
            pow10((k - 22) as nat) >= 1,
            q >= 1,
    ;
    assert(pow10(50) == c * q);
    if x > c {
        assert(x * p >= x * q) by (nonlinear_arith)
            requires
                x > c,
                c >= 1,
                p >= q,
        ;
        assert(x * q > c * q) by (nonlinear_arith)
            requires
                x > c,
                q >= 1,
        ;
    }
    if x < -c {
        assert(x * p <= x * q) by (nonlinear_arith)
            requires
                x < -c,
                c >= 1,
                p >= q,
        ;
        assert(x * q < -(c * q)) by (nonlinear_arith)
            requires
                x < -c,
                q >= 1,
        ;
    }
}

proof fn lemma_shift_units(m: int, k: nat, rest: nat)
    ensures
        (m * pow10(k)) * pow10(rest) == m * pow10(k + rest),
{
    lemma_pow10_add(k, rest);
    assert((m * pow10(k)) * pow10(rest) == m * (pow10(k) * pow10(rest))) by (nonlinear_arith);
}

impl Dec {
    /// The same magnitude with the opposite sign.
    pub open spec fn negated(self) -> Dec {
        Dec { mantissa: (-self.mantissa) as i128, scale: self.scale }
    }

    pub fn neg(self) -> (r: Dec)
        requires
            self.wf(),
        ensures
            r == self.negated(),
            r.wf(),
            r.units() == -self.units(),
    {
        proof {
            assert((-self.mantissa) * pow10((MAX_SCALE - self.scale) as nat) == -(self.mantissa
                * pow10((MAX_SCALE - self.scale) as nat))) by (nonlinear_arith);
        }
        Dec { mantissa: -self.mantissa, scale: self.scale }
    }
}

/// Sum of `lo` and `hi` where `lo` has the smaller scale.
fn sum_aligned(lo: Dec, hi: Dec) -> (r: Option<Dec>)
    requires
        lo.wf(),
        hi.wf(),
        lo.scale <= hi.scale,
    ensures
        r is Some <==> fits(aligned_sum(lo, hi)),
        r matches Some(d) ==> d.wf() && d.scale == hi.scale && d.mantissa == aligned_sum(lo, hi),
{
    let k = hi.scale - lo.scale;
    let p = pow10_i128(k);
    match lo.mantissa.checked_mul(p) {
        None => None,
        Some(x) => match x.checked_add(hi.mantissa) {
            None => None,
            Some(m) => {
                if -MAX_MANTISSA <= m && m <= MAX_MANTISSA {
                    Some(Dec { mantissa: m, scale: hi.scale })
                } else {
                    None
                }
            },
        },
    }
}

/// Exact sum; `None` when the exact sum does not fit 96 bits at the larger
/// of the two scales.
pub fn checked_sum(a: Dec, b: Dec) -> (r: Option<Dec>)
    requires
        a.wf(),
        b.wf(),
    ensures
        r is Some <==> fits(aligned_sum(a, b)),
        r matches Some(d) ==> d.wf() && d.units() == a.units() + b.units() && d.scale == (if a.scale
            <= b.scale {
            b.scale
        } else {
            a.scale
        }),
        r == sum_of(a, b),
{
    let r = if a.scale <= b.scale {
        sum_aligned(a, b)
    } else {
        sum_aligned(b, a)
    };
    proof {
        if let Some(d) = r {
            if a.scale <= b.scale {
                lemma_shift_units(a.mantissa as int, (b.scale - a.scale) as nat, (MAX_SCALE - b.scale) as nat);
            } else {
                lemma_shift_units(b.mantissa as int, (a.scale - b.scale) as nat, (MAX_SCALE - a.scale) as nat);
            }
            assert(d.units() == aligned_sum(a, b) * pow10((MAX_SCALE - d.scale) as nat));
            assert(aligned_sum(a, b) * pow10((MAX_SCALE - d.scale) as nat) == a.units() + b.units()) by (nonlinear_arith)
                requires
                    a.scale <= b.scale ==> aligned_sum(a, b) == a.mantissa * pow10((b.scale - a.scale) as nat) + b.mantissa && d.scale == b.scale
                        && (a.mantissa * pow10((b.scale - a.scale) as nat)) * pow10((MAX_SCALE - b.scale) as nat) == a.units(),
                    a.scale > b.scale ==> aligned_sum(a, b) == a.mantissa + b.mantissa * pow10((a.scale - b.scale) as nat) && d.scale == a.scale
                        && (b.mantissa * pow10((a.scale - b.scale) as nat)) * pow10((MAX_SCALE - a.scale) as nat) == b.units(),
            ;
        }
    }
    r
}

/// Exact difference `a - b`; `None` when it does not fit 96 bits at the
/// larger of the two scales.
pub fn checked_difference(a: Dec, b: Dec) -> (r: Option<Dec>)
    requires
        a.wf(),
        b.wf(),
    ensures
        r is Some <==> fits(aligned_sum(a, b.negated())),
        r matches Some(d) ==> d.wf() && d.units() == a.units() - b.units() && d.scale == (if a.scale
            <= b.scale {
            b.scale
        } else {
            a.scale
        }),
        r == sum_of(a, b.negated()),
{
    checked_sum(a, b.neg())
}

/// Exact `a / 100 * t`; `None` when its mantissa would exceed 96 bits or
/// its scale 28 digits.
pub fn checked_share(a: Dec, t: Dec) -> (r: Option<Dec>)
    requires
        a.wf(),
        t.wf(),
    ensures
        r is Some <==> a.scale + t.scale + 2 <= MAX_SCALE && fits(a.mantissa * t.mantissa),
        r matches Some(d) ==> d.wf() && d.units() * (100 * pow10(MAX_SCALE as nat)) == a.units()
            * t.units() && d.scale == a.scale + t.scale + 2,
        r == share_of(a, t),
{
    if a.scale + t.scale + 2 > MAX_SCALE {
        return None;
    }
    match a.mantissa.checked_mul(t.mantissa) {
        None => None,
        Some(m) => {
            if -MAX_MANTISSA <= m && m <= MAX_MANTISSA {
                let d = Dec { mantissa: m, scale: a.scale + t.scale + 2 };
                proof {
                    let ka = (MAX_SCALE - a.scale) as nat;
                    let kt = (MAX_SCALE - t.scale) as nat;
                    let kd = (MAX_SCALE - d.scale) as nat;
                    lemma_pow10_add(kd, 2);
                    lemma_pow10_add((kd + 2) as nat, MAX_SCALE as nat);
                    assert(kd + 2 + MAX_SCALE == ka + kt);
                    lemma_pow10_add(ka, kt);
                    assert(pow10(2) == 100) by {
                        reveal_with_fuel(pow10, 3);
                    }
                    assert(d.units() * (100 * pow10(MAX_SCALE as nat)) == m * (pow10(kd) * pow10(2)
                        * pow10(MAX_SCALE as nat))) by (nonlinear_arith)
                        requires
                            d.units() == m * pow10(kd),
                            pow10(2) == 100,
                    ;
                    assert(a.units() * t.units() == (a.mantissa * t.mantissa) * (pow10(ka) * pow10(
                        kt,
                    ))) by (nonlinear_arith)
                        requires
                            a.units() == a.mantissa * pow10(ka),
                            t.units() == t.mantissa * pow10(kt),
                    ;
                }
                Some(d)
            } else {
                None
            }
        },
    }
}

/// What `rust_decimal` reads from a text, as mantissa and scale.
pub uninterp spec fn decimal_of(s: Seq<char>) -> Option<(int, int)>;

/// Relies on `<rust_decimal::Decimal as FromStr>::from_str`: it refuses the
/// text or returns a decimal, whose mantissa has at most 96 bits and whose
/// scale is at most 28.
#[verifier::external_body]
pub(crate) fn read_decimal(s: &str) -> (r: Option<Dec>)
    ensures
        match r {
            Some(d) => d.wf() && decimal_of(s@) == Some((d.mantissa as int, d.scale as int)),
            None => decimal_of(s@) is None,
        },
{
    match <rust_decimal::Decimal as core::str::FromStr>::from_str(s) {
        Ok(d) => Some(Dec { mantissa: d.mantissa(), scale: d.scale() }),
        Err(_) => None,
    }
}

/// Relies on `rust_decimal::Decimal::normalize`: the same value with its
/// trailing fractional zeros stripped, and zero with scale 0.
#[verifier::external_body]
pub(crate) fn normalized(d: Dec) -> (r: Dec)
    requires
        d.wf(),
    ensures
        r.wf(),
        r.is_normal(),
        r.units() == d.units(),
        r.scale <= d.scale,
{
    let r = rust_decimal::Decimal::from_i128_with_scale(d.mantissa, d.scale).normalize();
    Dec { mantissa: r.mantissa(), scale: r.scale() }
}

/// The shortest representation of the value of `d`.
pub fn normalize(d: Dec) -> (r: Dec)
    requires
        d.wf(),
    ensures
        r == normal_of(d),
        r.wf(),
        r.is_normal(),
        r.units() == d.units(),
        r.scale <= d.scale,
{
    let r = normalized(d);
    proof {
        let e = normal_of(d);
        assert(e.wf() && e.is_normal() && e.units() == d.units());
        lemma_normal_unique(r, e);
    }
    r
}

/// Relies on `rust_decimal::Decimal::round`: banker's rounding to an
/// integer, which it returns with scale 0.
#[verifier::external_body]
pub(crate) fn round_to_integer(d: Dec) -> (r: Dec)
    requires
        d.wf(),
        d.mantissa >= 0,
    ensures
        r.wf(),
        r.scale == 0,
        r.mantissa == half_even(d.mantissa as int, pow10(d.scale as nat)),
{
    let r = rust_decimal::Decimal::from_i128_with_scale(d.mantissa, d.scale).round();
    Dec { mantissa: r.mantissa(), scale: r.scale() }
}

} // verus!
