use vstd::prelude::*;
use vstd::arithmetic::div_mod::{lemma_fundamental_div_mod, lemma_mod_bound};
use vstd::arithmetic::mul::lemma_mul_strictly_positive;

use crate::error::NirustError;

verus! {

/// A rational number at the specification level: a numerator and a
/// denominator over the unbounded integers. Values are not kept reduced;
/// two of them denote the same rational exactly when [`rat_eqv`] holds.
pub ghost struct Rat {
    pub num: int,
    pub den: int,
}

/// A specification-level rational is well formed when its denominator is
/// positive.
pub open spec fn rat_wf(a: Rat) -> bool {
    a.den > 0
}

/// `a` and `b` denote the same rational number (cross multiplication).
pub open spec fn rat_eqv(a: Rat, b: Rat) -> bool {
    a.num * b.den == b.num * a.den
}

/// The rational with value `n`.
pub open spec fn rat_of_int(n: int) -> Rat {
    Rat { num: n, den: 1 }
}

/// Exact rational sum.
pub open spec fn rat_add(a: Rat, b: Rat) -> Rat {
    Rat { num: a.num * b.den + b.num * a.den, den: a.den * b.den }
}

/// Exact rational difference.
pub open spec fn rat_sub(a: Rat, b: Rat) -> Rat {
    Rat { num: a.num * b.den - b.num * a.den, den: a.den * b.den }
}

/// Exact rational product.
pub open spec fn rat_mul(a: Rat, b: Rat) -> Rat {
    Rat { num: a.num * b.num, den: a.den * b.den }
}

/// Exact rational quotient, with the sign moved into the numerator so that
/// the denominator stays positive whenever the divisor is not zero.
pub open spec fn rat_div(a: Rat, b: Rat) -> Rat {
    if b.num >= 0 {
        Rat { num: a.num * b.den, den: a.den * b.num }
    } else {
        Rat { num: -(a.num * b.den), den: -(a.den * b.num) }
    }
}

/// Exact negation.
pub open spec fn rat_neg(a: Rat) -> Rat {
    Rat { num: -a.num, den: a.den }
}

/// For a well-formed rational, the sign lives in the numerator.
pub open spec fn rat_is_nonneg(a: Rat) -> bool {
    a.num >= 0
}

/// Strict order on well-formed rationals, by cross multiplication.
pub open spec fn rat_lt(a: Rat, b: Rat) -> bool {
    a.num * b.den < b.num * a.den
}

/// The greatest integer at or below `a` (integer division is Euclidean, so
/// for a positive denominator this is the floor).
pub open spec fn rat_floor(a: Rat) -> int {
    a.num / a.den
}

/// `a` rounded to the nearest integer, with ties rounded up:
/// `floor(a + 1/2)`.
pub open spec fn rat_round(a: Rat) -> int {
    (2 * a.num + a.den) / (2 * a.den)
}

/// The magnitude of an integer.
pub open spec fn mag(x: int) -> int {
    if x >= 0 { x } else { -x }
}

/// Whether a value fits the 128-bit signed machine word.
pub open spec fn in_i128(x: int) -> bool {
    i128::MIN <= x <= i128::MAX
}

/// The exact condition under which the sum of two represented rationals
/// cannot be computed: a cross product, the denominator product, or the
/// numerator sum leaves the representable range.
pub open spec fn add_overflows(a: Rat, b: Rat) -> bool {
    ||| !in_i128(a.num * b.den)
    ||| !in_i128(b.num * a.den)
    ||| !in_i128(a.den * b.den)
    ||| !in_i128(a.num * b.den + b.num * a.den)
}

/// The exact overflow condition of the difference.
pub open spec fn sub_overflows(a: Rat, b: Rat) -> bool {
    ||| !in_i128(a.num * b.den)
    ||| !in_i128(b.num * a.den)
    ||| !in_i128(a.den * b.den)
    ||| !in_i128(a.num * b.den - b.num * a.den)
}

/// The exact overflow condition of the product.
pub open spec fn mul_overflows(a: Rat, b: Rat) -> bool {
    !in_i128(a.num * b.num) || !in_i128(a.den * b.den)
}

/// The exact overflow condition of the quotient (for a divisor that is
/// not zero): a cross product leaves the range, or the sign correction
/// for a negative divisor does.
pub open spec fn div_overflows(a: Rat, b: Rat) -> bool {
    ||| !in_i128(a.num * b.den)
    ||| !in_i128(a.den * b.num)
    ||| (b.num < 0 && (!in_i128(-(a.num * b.den)) || !in_i128(-(a.den * b.num))))
}

/// The exact overflow condition of rounding to the nearest integer.
pub open spec fn round_overflows(a: Rat) -> bool {
    !in_i128(a.num * 2) || !in_i128(a.den * 2) || !in_i128(a.num * 2 + a.den)
}

/// The exact overflow condition of the order test.
pub open spec fn lt_overflows(a: Rat, b: Rat) -> bool {
    !in_i128(a.num * b.den) || !in_i128(b.num * a.den)
}

/// The magnitude shadow of a rational: its numerator's magnitude over
/// its denominator. Folding the exact operations over shadows bounds,
/// from the inputs alone, every representation the executable operations
/// can produce, because reduction never increases a numerator's
/// magnitude or a denominator.
pub open spec fn mag_rat(a: Rat) -> Rat {
    Rat { num: mag(a.num), den: a.den }
}

/// `x`'s representation is bounded by the shadow `s`.
pub open spec fn dominated(x: Rat, s: Rat) -> bool {
    mag(x.num) <= s.num && 0 < x.den <= s.den
}

/// The sum (or difference) of values bounded by these shadows cannot
/// overflow.
pub open spec fn add_fits(sa: Rat, sb: Rat) -> bool {
    &&& in_i128(sa.num * sb.den)
    &&& in_i128(sb.num * sa.den)
    &&& in_i128(sa.den * sb.den)
    &&& in_i128(sa.num * sb.den + sb.num * sa.den)
}

/// The product of values bounded by these shadows cannot overflow.
pub open spec fn mul_fits(sa: Rat, sb: Rat) -> bool {
    in_i128(sa.num * sb.num) && in_i128(sa.den * sb.den)
}

/// The quotient of values bounded by these shadows cannot overflow.
pub open spec fn div_fits(sa: Rat, sb: Rat) -> bool {
    in_i128(sa.num * sb.den) && in_i128(sa.den * sb.num)
}

/// A value bounded by this shadow can be rounded to the nearest integer
/// without overflow.
pub open spec fn round_fits(sh: Rat) -> bool {
    in_i128(sh.num * 2) && in_i128(sh.den * 2) && in_i128(sh.num * 2 + sh.den)
}

/// The shadow of a quotient: the dividend's shadow cross-multiplied with
/// the divisor's.
pub open spec fn sh_div(sa: Rat, sb: Rat) -> Rat {
    Rat { num: sa.num * sb.den, den: sa.den * sb.num }
}

/// The raw sum or difference of values bounded by shadows is bounded by
/// the sum of the shadows.
pub proof fn lemma_add_dom(x: Rat, y: Rat, sx: Rat, sy: Rat)
    requires
        rat_wf(x),
        rat_wf(y),
        dominated(x, sx),
        dominated(y, sy),
    ensures
        mag(x.num) * y.den + mag(y.num) * x.den <= rat_add(sx, sy).num,
        x.den * y.den <= rat_add(sx, sy).den,
        mag(x.num * y.den) <= rat_add(sx, sy).num,
        mag(y.num * x.den) <= rat_add(sx, sy).num,
        x.den * y.den > 0,
{
    lemma_mag_mul_pos(x.num, y.den);
    lemma_mag_mul_pos(y.num, x.den);
    lemma_mag_prod_le(mag(x.num), y.den, sx.num, sy.den);
    lemma_mag_prod_le(mag(y.num), x.den, sy.num, sx.den);
    lemma_mag_prod_le(x.den, y.den, sx.den, sy.den);
    lemma_mul_strictly_positive(x.den, y.den);
}

/// Values bounded by shadows that satisfy [`add_fits`] can be added or
/// subtracted without overflow.
pub proof fn lemma_add_bounds(x: Rat, y: Rat, sx: Rat, sy: Rat)
    requires
        rat_wf(x),
        rat_wf(y),
        dominated(x, sx),
        dominated(y, sy),
        add_fits(sx, sy),
    ensures
        !add_overflows(x, y),
        !sub_overflows(x, y),
        mag(x.num) * y.den + mag(y.num) * x.den <= rat_add(sx, sy).num,
        x.den * y.den <= rat_add(sx, sy).den,
{
    lemma_add_dom(x, y, sx, sy);
    lemma_mag_mul_pos(x.num, y.den);
    lemma_mag_mul_pos(y.num, x.den);
    lemma_mag_prod_le(mag(x.num), y.den, sx.num, sy.den);
    lemma_mag_prod_le(mag(y.num), x.den, sy.num, sx.den);
}

/// The raw product of values bounded by shadows is bounded by the
/// shadows' product.
pub proof fn lemma_mul_dom(x: Rat, y: Rat, sx: Rat, sy: Rat)
    requires
        rat_wf(x),
        rat_wf(y),
        dominated(x, sx),
        dominated(y, sy),
    ensures
        mag(x.num) * mag(y.num) <= rat_mul(sx, sy).num,
        x.den * y.den <= rat_mul(sx, sy).den,
        mag(x.num * y.num) <= rat_mul(sx, sy).num,
        x.den * y.den > 0,
{
    lemma_mag_mul(x.num, y.num);
    lemma_mag_prod_le(mag(x.num), mag(y.num), sx.num, sy.num);
    lemma_mag_prod_le(x.den, y.den, sx.den, sy.den);
    lemma_mul_strictly_positive(x.den, y.den);
}

/// Values bounded by shadows that satisfy [`mul_fits`] can be multiplied
/// without overflow.
pub proof fn lemma_mul_bounds(x: Rat, y: Rat, sx: Rat, sy: Rat)
    requires
        rat_wf(x),
        rat_wf(y),
        dominated(x, sx),
        dominated(y, sy),
        mul_fits(sx, sy),
    ensures
        !mul_overflows(x, y),
        mag(x.num) * mag(y.num) <= rat_mul(sx, sy).num,
        x.den * y.den <= rat_mul(sx, sy).den,
{
    lemma_mul_dom(x, y, sx, sy);
}

/// The raw quotient of values bounded by shadows is bounded by
/// [`sh_div`].
pub proof fn lemma_div_dom(x: Rat, y: Rat, sx: Rat, sy: Rat)
    requires
        rat_wf(x),
        rat_wf(y),
        dominated(x, sx),
        dominated(y, sy),
    ensures
        mag(x.num) * y.den <= sh_div(sx, sy).num,
        x.den * mag(y.num) <= sh_div(sx, sy).den,
        mag(x.num * y.den) <= sh_div(sx, sy).num,
        mag(x.den * y.num) <= sh_div(sx, sy).den,
{
    lemma_mag_mul_pos(x.num, y.den);
    lemma_mag_mul(x.den, y.num);
    lemma_mag_prod_le(mag(x.num), y.den, sx.num, sy.den);
    lemma_mag_prod_le(x.den, mag(y.num), sx.den, sy.num);
    assert(mag(x.den) == x.den);
}

/// A value bounded by a shadow that satisfies [`round_fits`] can be
/// rounded without overflow.
pub proof fn lemma_round_bounds(x: Rat, sx: Rat)
    requires
        rat_wf(x),
        dominated(x, sx),
        round_fits(sx),
    ensures
        !round_overflows(x),
{
    lemma_mag_mul_pos(x.num, 2);
    lemma_mag_prod_le(mag(x.num), 2, sx.num, 2);
    lemma_mag_prod_le(x.den, 2, sx.den, 2);
}

/// Values bounded by shadows that satisfy [`div_fits`] can be divided
/// without overflow.
pub proof fn lemma_div_bounds(x: Rat, y: Rat, sx: Rat, sy: Rat)
    requires
        rat_wf(x),
        rat_wf(y),
        dominated(x, sx),
        dominated(y, sy),
        div_fits(sx, sy),
    ensures
        !div_overflows(x, y),
        mag(x.num) * y.den <= sh_div(sx, sy).num,
        x.den * mag(y.num) <= sh_div(sx, sy).den,
{
    lemma_div_dom(x, y, sx, sy);
}

/// An exact rational number held in machine words: `num / den` with
/// `den > 0`. All engine arithmetic is exact; an operation whose result
/// cannot be represented reports that instead of rounding.
#[derive(Clone, Copy, Debug)]
pub struct Ratio {
    pub num: i128,
    pub den: i128,
}

impl View for Ratio {
    type V = Rat;

    open spec fn view(&self) -> Rat {
        Rat { num: self.num as int, den: self.den as int }
    }
}

/// Scaling by a positive factor scales the magnitude.
pub proof fn lemma_mag_mul_pos(a: int, d: int)
    requires
        d > 0,
    ensures
        mag(a * d) == mag(a) * d,
{
    if a >= 0 {
        assert(a * d >= 0) by (nonlinear_arith)
            requires a >= 0, d > 0;
    } else {
        assert(a * d < 0 && -(a * d) == (-a) * d) by (nonlinear_arith)
            requires a < 0, d > 0;
    }
}

/// Products of non-negative values respect their bounds.
pub proof fn lemma_mag_prod_le(a: int, b: int, ca: int, cb: int)
    requires
        0 <= a <= ca,
        0 <= b <= cb,
    ensures
        a * b <= ca * cb,
{
    assert(a * b <= ca * cb) by (nonlinear_arith)
        requires
            0 <= a <= ca,
            0 <= b <= cb;
}

/// The magnitude of a product is the product of the magnitudes.
pub proof fn lemma_mag_mul(a: int, b: int)
    ensures
        mag(a * b) == mag(a) * mag(b),
{
    if b > 0 {
        lemma_mag_mul_pos(a, b);
    } else if b == 0 {
        assert(a * b == 0) by (nonlinear_arith)
            requires b == 0;
        assert(mag(a) * 0 == 0) by (nonlinear_arith);
    } else {
        assert(a * b == (-a) * (-b)) by (nonlinear_arith);
        lemma_mag_mul_pos(-a, -b);
    }
}

/// Euclid's algorithm on non-negative inputs, used only to find a candidate
/// common divisor; the callers re-check divisibility before using it.
fn gcd_nonneg(a0: i128, b0: i128) -> (g: i128)
    requires
        a0 >= 0,
        b0 >= 0,
        a0 >= 1 || b0 >= 1,
    ensures
        g >= 1,
{
    let mut a: i128 = a0;
    let mut b: i128 = b0;
    while b != 0
        invariant
            a >= 0,
            b >= 0,
            a >= 1 || b >= 1,
        decreases b,
    {
        let r = match a.checked_rem_euclid(b) {
            Some(r) => r,
            None => 0,
        };
        proof {
            lemma_mod_bound(a as int, b as int);
        }
        a = b;
        b = r;
    }
    a
}

impl Ratio {
    /// The representation invariant: a positive denominator.
    pub open spec fn wf(self) -> bool {
        self.den > 0
    }

    /// Build a rational from a numerator and a non-zero denominator. A
    /// negative denominator is folded into the numerator's sign.
    pub fn new(num: i128, den: i128) -> (r: Result<Ratio, NirustError>)
        ensures
            den == 0 ==> r == Err::<Ratio, NirustError>(NirustError::InvalidArgument),
            r matches Ok(q) ==> q.wf() && rat_eqv(q@, Rat { num: num as int, den: den as int }),
            den > 0 ==> r is Ok,
            den < 0 && num != i128::MIN && den != i128::MIN ==> r is Ok,
            r matches Err(e) ==> e == NirustError::InvalidArgument
                || e == NirustError::ArithmeticOverflow,
    {
        if den == 0 {
            Err(NirustError::InvalidArgument)
        } else if den > 0 {
            Ok(Ratio { num, den })
        } else {
            match (0i128.checked_sub(num), 0i128.checked_sub(den)) {
                (Some(n), Some(d)) => {
                    assert((n as int) * (den as int) == (num as int) * (d as int)) by (nonlinear_arith)
                        requires n as int == -(num as int), d as int == -(den as int);
                    Ok(Ratio { num: n, den: d })
                },
                _ => Err(NirustError::ArithmeticOverflow),
            }
        }
    }

    /// The rational with value `n`.
    pub fn from_int(n: i64) -> (r: Ratio)
        ensures
            r.wf(),
            r@ == rat_of_int(n as int),
    {
        Ratio { num: n as i128, den: 1 }
    }

    /// The rational with value `n`, from a wide integer.
    pub fn from_i128(n: i128) -> (r: Ratio)
        ensures
            r.wf(),
            r@ == rat_of_int(n as int),
    {
        Ratio { num: n, den: 1 }
    }

    /// Zero.
    pub fn zero() -> (r: Ratio)
        ensures
            r.wf(),
            r@ == rat_of_int(0),
    {
        Ratio { num: 0, den: 1 }
    }

    /// Reduce `num / den` by a common divisor when one is found, keeping the
    /// denominators of long computations small. The value is unchanged.
    fn make(num: i128, den: i128) -> (r: Ratio)
        requires
            den > 0,
        ensures
            r.wf(),
            rat_eqv(r@, Rat { num: num as int, den: den as int }),
            mag(r@.num) <= mag(num as int),
            r@.den <= den as int,
    {
        let a = if num == i128::MIN {
            // |i128::MIN| is not representable; skip reduction.
            return Ratio { num, den };
        } else if num < 0 {
            -num
        } else {
            num
        };
        let g = gcd_nonneg(a, den);
        let nr = num.checked_rem_euclid(g);
        let dr = den.checked_rem_euclid(g);
        match (nr, dr) {
            (Some(0), Some(0)) => {
                let qn = match num.checked_div_euclid(g) {
                    Some(q) => q,
                    None => return Ratio { num, den },
                };
                let qd = match den.checked_div_euclid(g) {
                    Some(q) => q,
                    None => return Ratio { num, den },
                };
                proof {
                    lemma_fundamental_div_mod(num as int, g as int);
                    lemma_fundamental_div_mod(den as int, g as int);
                    assert(num as int % (g as int) == 0);
                    assert(den as int % (g as int) == 0);
                    assert(num as int == (g as int) * (qn as int));
                    assert(den as int == (g as int) * (qd as int));
                    assert(qd as int > 0 && (qn as int) * (den as int) == (num as int) * (qd as int))
                        by (nonlinear_arith)
                        requires
                            num as int == (g as int) * (qn as int),
                            den as int == (g as int) * (qd as int),
                            den as int > 0,
                            g as int >= 1;
                    assert(((qn as int) >= 0 ==> (qn as int) <= (num as int))
                        && ((qn as int) < 0 ==> (num as int) <= (qn as int))
                        && (qd as int) <= (den as int)) by (nonlinear_arith)
                        requires
                            num as int == (g as int) * (qn as int),
                            den as int == (g as int) * (qd as int),
                            qd as int > 0,
                            g as int >= 1;
                }
                Ratio { num: qn, den: qd }
            },
            _ => Ratio { num, den },
        }
    }

    /// Exact sum. Fails exactly when a cross product, the denominator
    /// product, or the numerator sum leaves the representable range.
    pub fn add(self, other: Ratio) -> (r: Option<Ratio>)
        requires
            self.wf(),
            other.wf(),
        ensures
            r matches Some(q) ==> q.wf() && rat_eqv(q@, rat_add(self@, other@)),
            r is None <==> add_overflows(self@, other@),
            r matches Some(q) ==> mag(q@.num) <= mag(self@.num) * other@.den
                + mag(other@.num) * self@.den
                && q@.den <= self@.den * other@.den,
    {
        let p1 = self.num.checked_mul(other.den);
        let p2 = other.num.checked_mul(self.den);
        let d = self.den.checked_mul(other.den);
        match (p1, p2, d) {
            (Some(x), Some(y), Some(dd)) => {
                match x.checked_add(y) {
                    Some(n) => {
                        proof {
                            lemma_mul_strictly_positive(self.den as int, other.den as int);
                            lemma_mag_mul_pos(self.num as int, other.den as int);
                            lemma_mag_mul_pos(other.num as int, self.den as int);
                        }
                        Some(Ratio::make(n, dd))
                    },
                    None => None,
                }
            },
            _ => None,
        }
    }

    /// Exact difference.
    /// Fails exactly when a cross product, the denominator product, or
    /// the numerator difference leaves the representable range.
    pub fn sub(self, other: Ratio) -> (r: Option<Ratio>)
        requires
            self.wf(),
            other.wf(),
        ensures
            r matches Some(q) ==> q.wf() && rat_eqv(q@, rat_sub(self@, other@)),
            r is None <==> sub_overflows(self@, other@),
            r matches Some(q) ==> mag(q@.num) <= mag(self@.num) * other@.den
                + mag(other@.num) * self@.den
                && q@.den <= self@.den * other@.den,
    {
        let p1 = self.num.checked_mul(other.den);
        let p2 = other.num.checked_mul(self.den);
        let d = self.den.checked_mul(other.den);
        match (p1, p2, d) {
            (Some(x), Some(y), Some(dd)) => {
                match x.checked_sub(y) {
                    Some(n) => {
                        proof {
                            lemma_mul_strictly_positive(self.den as int, other.den as int);
                            lemma_mag_mul_pos(self.num as int, other.den as int);
                            lemma_mag_mul_pos(other.num as int, self.den as int);
                        }
                        Some(Ratio::make(n, dd))
                    },
                    None => None,
                }
            },
            _ => None,
        }
    }

    /// Exact product.
    /// Fails exactly when the numerator or denominator product leaves
    /// the representable range.
    pub fn mul(self, other: Ratio) -> (r: Option<Ratio>)
        requires
            self.wf(),
            other.wf(),
        ensures
            r matches Some(q) ==> q.wf() && rat_eqv(q@, rat_mul(self@, other@)),
            r is None <==> mul_overflows(self@, other@),
            r matches Some(q) ==> mag(q@.num) <= mag(self@.num) * mag(other@.num)
                && q@.den <= self@.den * other@.den,
    {
        let n = self.num.checked_mul(other.num);
        let d = self.den.checked_mul(other.den);
        match (n, d) {
            (Some(nn), Some(dd)) => {
                proof {
                    lemma_mul_strictly_positive(self.den as int, other.den as int);
                    lemma_mag_mul(self.num as int, other.num as int);
                }
                Some(Ratio::make(nn, dd))
            },
            _ => None,
        }
    }

    /// Exact quotient. Fails exactly on division by zero or when a
    /// cross product (or its sign correction) leaves the representable
    /// range.
    pub fn div(self, other: Ratio) -> (r: Option<Ratio>)
        requires
            self.wf(),
            other.wf(),
        ensures
            r matches Some(q) ==> q.wf() && rat_eqv(q@, rat_div(self@, other@)),
            r is None <==> other@.num == 0 || div_overflows(self@, other@),
            r matches Some(q) ==> mag(q@.num) <= mag(self@.num) * other@.den
                && q@.den <= self@.den * mag(other@.num),
    {
        if other.num == 0 {
            return None;
        }
        let n = self.num.checked_mul(other.den);
        let d = self.den.checked_mul(other.num);
        match (n, d) {
            (Some(nn), Some(dd)) => {
                if other.num > 0 {
                    proof {
                        lemma_mul_strictly_positive(self.den as int, other.num as int);
                        lemma_mag_mul_pos(self.num as int, other.den as int);
                    }
                    Some(Ratio::make(nn, dd))
                } else {
                    match (0i128.checked_sub(nn), 0i128.checked_sub(dd)) {
                        (Some(nn2), Some(dd2)) => {
                            proof {
                                assert((dd2 as int) > 0
                                    && dd2 as int == (self.den as int) * (-(other.num as int)))
                                    by (nonlinear_arith)
                                    requires
                                        dd2 as int == -((self.den as int) * (other.num as int)),
                                        self.den as int > 0,
                                        (other.num as int) < 0;
                                lemma_mag_mul_pos(self.num as int, other.den as int);
                            }
                            Some(Ratio::make(nn2, dd2))
                        },
                        _ => None,
                    }
                }
            },
            _ => None,
        }
    }

    /// Exact negation. Fails exactly when the negated numerator leaves
    /// the representable range.
    pub fn neg(self) -> (r: Option<Ratio>)
        requires
            self.wf(),
        ensures
            r matches Some(q) ==> q.wf() && rat_eqv(q@, rat_neg(self@)),
            r is None <==> !in_i128(-self@.num),
            r matches Some(q) ==> q@.num == -self@.num && q@.den == self@.den,
    {
        match 0i128.checked_sub(self.num) {
            Some(n) => Some(Ratio { num: n, den: self.den }),
            None => None,
        }
    }

    /// Whether the value is at or above zero.
    pub fn is_nonneg(self) -> (r: bool)
        requires
            self.wf(),
        ensures
            r == rat_is_nonneg(self@),
    {
        self.num >= 0
    }

    /// The greatest integer at or below the value.
    pub fn floor(self) -> (r: i128)
        requires
            self.wf(),
        ensures
            r as int == rat_floor(self@),
    {
        match self.num.checked_div_euclid(self.den) {
            Some(q) => q,
            None => {
                proof {
                    lemma_div_in_range(self.num as int, self.den as int);
                }
                assert(false);
                0
            },
        }
    }

    /// The nearest integer to the value, ties rounded up. Fails exactly
    /// when doubling the representation or forming the half-offset
    /// leaves the representable range.
    pub fn round(self) -> (r: Option<i128>)
        requires
            self.wf(),
        ensures
            r matches Some(q) ==> q as int == rat_round(self@),
            r is None <==> round_overflows(self@),
    {
        let n2 = self.num.checked_mul(2)?;
        let d2 = self.den.checked_mul(2)?;
        let n = n2.checked_add(self.den)?;
        match n.checked_div_euclid(d2) {
            Some(q) => Some(q),
            None => {
                proof {
                    lemma_div_in_range(n as int, d2 as int);
                }
                assert(false);
                None
            },
        }
    }

    /// Whether the value is strictly below `other`. Fails exactly when
    /// a cross product leaves the representable range.
    pub fn lt(self, other: Ratio) -> (r: Option<bool>)
        requires
            self.wf(),
            other.wf(),
        ensures
            r matches Some(b) ==> b == rat_lt(self@, other@),
            r is None <==> lt_overflows(self@, other@),
    {
        let p1 = self.num.checked_mul(other.den);
        let p2 = other.num.checked_mul(self.den);
        match (p1, p2) {
            (Some(x), Some(y)) => Some(x < y),
            _ => None,
        }
    }

    /// Whether the value equals the integer `k`. Exact: a product that
    /// cannot be represented cannot equal the in-range numerator either.
    pub fn eqv_int(self, k: i64) -> (r: bool)
        requires
            self.wf(),
        ensures
            r == rat_eqv(self@, rat_of_int(k as int)),
    {
        match self.den.checked_mul(k as i128) {
            Some(p) => {
                proof {
                    assert(((self.num as int) * 1 == (k as int) * (self.den as int))
                        == (self.num as int == (self.den as int) * (k as int))) by (nonlinear_arith);
                }
                self.num == p
            },
            None => {
                proof {
                    assert((self.num as int) * 1 != (k as int) * (self.den as int))
                        by (nonlinear_arith)
                        requires
                            (self.den as int) * (k as int) > i128::MAX as int
                                || (self.den as int) * (k as int) < i128::MIN as int,
                            i128::MIN as int <= self.num as int <= i128::MAX as int;
                }
                false
            },
        }
    }
}

/// For a divisor of one or more, the Euclidean quotient of an in-range
/// dividend stays in range.
proof fn lemma_div_in_range(x: int, d: int)
    requires
        d >= 1,
        i128::MIN <= x <= i128::MAX,
    ensures
        i128::MIN <= x / d <= i128::MAX,
{
    lemma_fundamental_div_mod(x, d);
    lemma_mod_bound(x, d);
    let q = x / d;
    let r = x % d;
    assert(i128::MIN <= q <= i128::MAX) by (nonlinear_arith)
        requires
            x == d * q + r,
            0 <= r < d,
            d >= 1,
            i128::MIN <= x <= i128::MAX;
}

/// Sums of well-formed rationals are well formed.
pub proof fn lemma_add_wf(a: Rat, b: Rat)
    requires
        rat_wf(a),
        rat_wf(b),
    ensures
        rat_wf(rat_add(a, b)),
{
    lemma_mul_strictly_positive(a.den, b.den);
}

/// Differences of well-formed rationals are well formed.
pub proof fn lemma_sub_wf(a: Rat, b: Rat)
    requires
        rat_wf(a),
        rat_wf(b),
    ensures
        rat_wf(rat_sub(a, b)),
{
    lemma_mul_strictly_positive(a.den, b.den);
}

/// Products of well-formed rationals are well formed.
pub proof fn lemma_mul_wf(a: Rat, b: Rat)
    requires
        rat_wf(a),
        rat_wf(b),
    ensures
        rat_wf(rat_mul(a, b)),
{
    lemma_mul_strictly_positive(a.den, b.den);
}

/// `rat_eqv` relates well-formed rationals transitively.
pub proof fn lemma_eqv_trans(a: Rat, b: Rat, c: Rat)
    requires
        rat_wf(a),
        rat_wf(b),
        rat_wf(c),
        rat_eqv(a, b),
        rat_eqv(b, c),
    ensures
        rat_eqv(a, c),
{
    assert(a.num * c.den == c.num * a.den) by (nonlinear_arith)
        requires
            a.num * b.den == b.num * a.den,
            b.num * c.den == c.num * b.den,
            a.den > 0,
            b.den > 0,
            c.den > 0;
}

/// Sums of equal rationals are equal.
#[verifier::rlimit(50)]
pub proof fn lemma_add_compat(a: Rat, a2: Rat, b: Rat, b2: Rat)
    requires
        rat_wf(a),
        rat_wf(a2),
        rat_wf(b),
        rat_wf(b2),
        rat_eqv(a, a2),
        rat_eqv(b, b2),
    ensures
        rat_eqv(rat_add(a, b), rat_add(a2, b2)),
{
    assert((a.num * b.den) * (a2.den * b2.den) == (a2.num * b2.den) * (a.den * b.den))
        by (nonlinear_arith)
        requires
            a.num * a2.den == a2.num * a.den;
    assert((b.num * a.den) * (a2.den * b2.den) == (b2.num * a2.den) * (a.den * b.den))
        by (nonlinear_arith)
        requires
            b.num * b2.den == b2.num * b.den;
    assert((a.num * b.den + b.num * a.den) * (a2.den * b2.den)
        == (a2.num * b2.den + b2.num * a2.den) * (a.den * b.den)) by (nonlinear_arith)
        requires
            (a.num * b.den) * (a2.den * b2.den) == (a2.num * b2.den) * (a.den * b.den),
            (b.num * a.den) * (a2.den * b2.den) == (b2.num * a2.den) * (a.den * b.den);
}

/// Differences of equal rationals are equal.
#[verifier::rlimit(50)]
pub proof fn lemma_sub_compat(a: Rat, a2: Rat, b: Rat, b2: Rat)
    requires
        rat_wf(a),
        rat_wf(a2),
        rat_wf(b),
        rat_wf(b2),
        rat_eqv(a, a2),
        rat_eqv(b, b2),
    ensures
        rat_eqv(rat_sub(a, b), rat_sub(a2, b2)),
{
    assert((a.num * b.den) * (a2.den * b2.den) == (a2.num * b2.den) * (a.den * b.den))
        by (nonlinear_arith)
        requires
            a.num * a2.den == a2.num * a.den;
    assert((b.num * a.den) * (a2.den * b2.den) == (b2.num * a2.den) * (a.den * b.den))
        by (nonlinear_arith)
        requires
            b.num * b2.den == b2.num * b.den;
    assert((a.num * b.den - b.num * a.den) * (a2.den * b2.den)
        == (a2.num * b2.den - b2.num * a2.den) * (a.den * b.den)) by (nonlinear_arith)
        requires
            (a.num * b.den) * (a2.den * b2.den) == (a2.num * b2.den) * (a.den * b.den),
            (b.num * a.den) * (a2.den * b2.den) == (b2.num * a2.den) * (a.den * b.den);
}

/// Products of equal rationals are equal.
pub proof fn lemma_mul_compat(a: Rat, a2: Rat, b: Rat, b2: Rat)
    requires
        rat_wf(a),
        rat_wf(a2),
        rat_wf(b),
        rat_wf(b2),
        rat_eqv(a, a2),
        rat_eqv(b, b2),
    ensures
        rat_eqv(rat_mul(a, b), rat_mul(a2, b2)),
{
    assert((a.num * b.num) * (a2.den * b2.den) == (a2.num * b2.num) * (a.den * b.den))
        by (nonlinear_arith)
        requires
            a.num * a2.den == a2.num * a.den,
            b.num * b2.den == b2.num * b.den;
}

/// A computed sum equal to `rat_add(x, y)` is also equal to the sum of any
/// rationals that `x` and `y` are equal to.
pub proof fn lemma_add_step(s: Rat, x: Rat, y: Rat, a: Rat, b: Rat)
    requires
        rat_wf(s),
        rat_wf(x),
        rat_wf(y),
        rat_wf(a),
        rat_wf(b),
        rat_eqv(s, rat_add(x, y)),
        rat_eqv(x, a),
        rat_eqv(y, b),
    ensures
        rat_eqv(s, rat_add(a, b)),
        rat_wf(rat_add(a, b)),
{
    lemma_add_compat(x, a, y, b);
    lemma_add_wf(x, y);
    lemma_add_wf(a, b);
    lemma_eqv_trans(s, rat_add(x, y), rat_add(a, b));
}

/// The difference counterpart of [`lemma_add_step`].
pub proof fn lemma_sub_step(s: Rat, x: Rat, y: Rat, a: Rat, b: Rat)
    requires
        rat_wf(s),
        rat_wf(x),
        rat_wf(y),
        rat_wf(a),
        rat_wf(b),
        rat_eqv(s, rat_sub(x, y)),
        rat_eqv(x, a),
        rat_eqv(y, b),
    ensures
        rat_eqv(s, rat_sub(a, b)),
        rat_wf(rat_sub(a, b)),
{
    lemma_sub_compat(x, a, y, b);
    lemma_sub_wf(x, y);
    lemma_sub_wf(a, b);
    lemma_eqv_trans(s, rat_sub(x, y), rat_sub(a, b));
}

/// The product counterpart of [`lemma_add_step`].
pub proof fn lemma_mul_step(s: Rat, x: Rat, y: Rat, a: Rat, b: Rat)
    requires
        rat_wf(s),
        rat_wf(x),
        rat_wf(y),
        rat_wf(a),
        rat_wf(b),
        rat_eqv(s, rat_mul(x, y)),
        rat_eqv(x, a),
        rat_eqv(y, b),
    ensures
        rat_eqv(s, rat_mul(a, b)),
        rat_wf(rat_mul(a, b)),
{
    lemma_mul_compat(x, a, y, b);
    lemma_mul_wf(x, y);
    lemma_mul_wf(a, b);
    lemma_eqv_trans(s, rat_mul(x, y), rat_mul(a, b));
}

/// Multiplying by a factor equal to one changes nothing.
pub proof fn lemma_mul_one_left(o: Rat, a: Rat)
    requires
        rat_wf(o),
        rat_wf(a),
        rat_eqv(o, rat_of_int(1)),
    ensures
        rat_eqv(rat_mul(o, a), a),
{
    assert((o.num * a.num) * a.den == a.num * (o.den * a.den)) by (nonlinear_arith)
        requires
            o.num * 1 == 1 * o.den;
}

/// Multiplying by a factor equal to zero gives zero.
pub proof fn lemma_mul_zero_left(o: Rat, a: Rat)
    requires
        rat_wf(o),
        rat_wf(a),
        rat_eqv(o, rat_of_int(0)),
    ensures
        rat_eqv(rat_mul(o, a), rat_of_int(0)),
{
    assert((o.num * a.num) * 1 == 0 * (o.den * a.den)) by (nonlinear_arith)
        requires
            o.num * 1 == 0 * o.den;
}

/// Adding to a term equal to zero gives the other term.
pub proof fn lemma_add_zero_left(z: Rat, a: Rat)
    requires
        rat_wf(z),
        rat_wf(a),
        rat_eqv(z, rat_of_int(0)),
    ensures
        rat_eqv(rat_add(z, a), a),
{
    assert((z.num * a.den + a.num * z.den) * a.den == a.num * (z.den * a.den))
        by (nonlinear_arith)
        requires
            z.num * 1 == 0 * z.den;
}

/// Adding a term equal to zero changes nothing.
pub proof fn lemma_add_zero_right(a: Rat, z: Rat)
    requires
        rat_wf(a),
        rat_wf(z),
        rat_eqv(z, rat_of_int(0)),
    ensures
        rat_eqv(rat_add(a, z), a),
{
    assert((a.num * z.den + z.num * a.den) * a.den == a.num * (a.den * z.den))
        by (nonlinear_arith)
        requires
            z.num * 1 == 0 * z.den;
}

/// Multiplication is associative.
pub proof fn lemma_mul_assoc(a: Rat, b: Rat, c: Rat)
    requires
        rat_wf(a),
        rat_wf(b),
        rat_wf(c),
    ensures
        rat_eqv(rat_mul(a, rat_mul(b, c)), rat_mul(rat_mul(a, b), c)),
{
    assert((a.num * (b.num * c.num)) * ((a.den * b.den) * c.den)
        == ((a.num * b.num) * c.num) * (a.den * (b.den * c.den))) by (nonlinear_arith);
}

/// `z x + z y == z (x + y)` for opaque terms.
proof fn lemma_factor_sum(x: int, y: int, z: int)
    ensures
        z * x + z * y == z * (x + y),
{
    assert(z * x + z * y == z * (x + y)) by (nonlinear_arith);
}

/// `m ((x u)(x v)) == (x m)(x (u v))` for an opaque `m`: the shared
/// shuffle of the distributivity proofs.
proof fn lemma_scale_shuffle(m: int, x: int, u: int, v: int)
    ensures
        m * ((x * u) * (x * v)) == (x * m) * (x * (u * v)),
{
    assert(m * ((x * u) * (x * v)) == (x * m) * (x * (u * v))) by (nonlinear_arith);
}

/// Multiplication distributes over addition from the left.
pub proof fn lemma_mul_distrib_left(c: Rat, u: Rat, v: Rat)
    requires
        rat_wf(c),
        rat_wf(u),
        rat_wf(v),
    ensures
        rat_eqv(rat_mul(c, rat_add(u, v)), rat_add(rat_mul(c, u), rat_mul(c, v))),
{
    let m = c.num * (u.num * v.den) + c.num * (v.num * u.den);
    assert(c.num * (u.num * v.den + v.num * u.den) == m) by (nonlinear_arith)
        requires m == c.num * (u.num * v.den) + c.num * (v.num * u.den);
    assert((c.num * u.num) * (c.den * v.den) == c.den * (c.num * (u.num * v.den)))
        by (nonlinear_arith);
    assert((c.num * v.num) * (c.den * u.den) == c.den * (c.num * (v.num * u.den)))
        by (nonlinear_arith);
    lemma_factor_sum(c.num * (u.num * v.den), c.num * (v.num * u.den), c.den);
    lemma_scale_shuffle(m, c.den, u.den, v.den);
}

/// Multiplication distributes over addition from the right.
pub proof fn lemma_mul_distrib_right(u: Rat, v: Rat, c: Rat)
    requires
        rat_wf(u),
        rat_wf(v),
        rat_wf(c),
    ensures
        rat_eqv(rat_mul(rat_add(u, v), c), rat_add(rat_mul(u, c), rat_mul(v, c))),
{
    let m = (u.num * v.den) * c.num + (v.num * u.den) * c.num;
    assert((u.num * v.den + v.num * u.den) * c.num == m) by (nonlinear_arith)
        requires m == (u.num * v.den) * c.num + (v.num * u.den) * c.num;
    assert((u.num * c.num) * (v.den * c.den) == c.den * ((u.num * v.den) * c.num))
        by (nonlinear_arith);
    assert((v.num * c.num) * (u.den * c.den) == c.den * ((v.num * u.den) * c.num))
        by (nonlinear_arith);
    lemma_factor_sum((u.num * v.den) * c.num, (v.num * u.den) * c.num, c.den);
    assert(m * ((u.den * c.den) * (v.den * c.den))
        == (c.den * m) * ((u.den * v.den) * c.den)) by {
        assert(m * ((c.den * u.den) * (c.den * v.den))
            == (c.den * m) * (c.den * (u.den * v.den))) by {
            lemma_scale_shuffle(m, c.den, u.den, v.den);
        }
        assert((u.den * c.den) * (v.den * c.den) == (c.den * u.den) * (c.den * v.den))
            by (nonlinear_arith);
        assert((u.den * v.den) * c.den == c.den * (u.den * v.den)) by (nonlinear_arith);
    }
}

/// Addition is associative.
pub proof fn lemma_add_assoc(a: Rat, b: Rat, c: Rat)
    requires
        rat_wf(a),
        rat_wf(b),
        rat_wf(c),
    ensures
        rat_eqv(rat_add(rat_add(a, b), c), rat_add(a, rat_add(b, c))),
{
    let m = a.num * (b.den * c.den) + b.num * (a.den * c.den) + c.num * (a.den * b.den);
    assert((a.num * b.den + b.num * a.den) * c.den + c.num * (a.den * b.den) == m)
        by (nonlinear_arith)
        requires m == a.num * (b.den * c.den) + b.num * (a.den * c.den)
            + c.num * (a.den * b.den);
    assert(a.num * (b.den * c.den) + (b.num * c.den + c.num * b.den) * a.den == m)
        by (nonlinear_arith)
        requires m == a.num * (b.den * c.den) + b.num * (a.den * c.den)
            + c.num * (a.den * b.den);
    assert(a.den * (b.den * c.den) == (a.den * b.den) * c.den) by (nonlinear_arith);
}

/// Addition is commutative.
pub proof fn lemma_add_comm(a: Rat, b: Rat)
    requires
        rat_wf(a),
        rat_wf(b),
    ensures
        rat_eqv(rat_add(a, b), rat_add(b, a)),
{
    assert((a.num * b.den + b.num * a.den) * (b.den * a.den)
        == (b.num * a.den + a.num * b.den) * (a.den * b.den)) by (nonlinear_arith);
}

/// The middle terms of a sum of two sums can be exchanged.
pub proof fn lemma_add_exchange(a: Rat, b: Rat, c: Rat, d: Rat)
    requires
        rat_wf(a),
        rat_wf(b),
        rat_wf(c),
        rat_wf(d),
    ensures
        rat_eqv(
            rat_add(rat_add(a, b), rat_add(c, d)),
            rat_add(rat_add(a, c), rat_add(b, d)),
        ),
{
    lemma_add_wf(a, b);
    lemma_add_wf(c, d);
    lemma_add_wf(a, c);
    lemma_add_wf(b, d);
    lemma_add_wf(b, c);
    lemma_add_wf(c, b);
    lemma_add_wf(rat_add(a, b), c);
    lemma_add_wf(rat_add(b, c), a);
    lemma_add_wf(rat_add(c, b), a);
    lemma_add_wf(b, rat_add(c, d));
    lemma_add_wf(rat_add(b, c), d);
    lemma_add_wf(a, rat_add(b, c));
    lemma_add_wf(a, rat_add(c, b));
    lemma_add_wf(rat_add(a, c), b);
    lemma_add_wf(rat_add(rat_add(a, b), c), d);
    lemma_add_wf(rat_add(a, b), rat_add(c, d));
    lemma_add_wf(rat_add(a, c), rat_add(b, d));
    lemma_add_wf(rat_add(a, rat_add(b, c)), d);
    lemma_add_wf(rat_add(a, rat_add(c, b)), d);
    lemma_add_wf(rat_add(rat_add(a, c), b), d);
    // ((a+b)+(c+d)) ~ (((a+b)+c)+d)
    lemma_add_assoc(rat_add(a, b), c, d);
    // ((a+b)+c) ~ (a+(b+c)), lifted into the sum with d
    lemma_add_assoc(a, b, c);
    lemma_add_compat(
        rat_add(rat_add(a, b), c), rat_add(a, rat_add(b, c)), d, d,
    );
    // (b+c) ~ (c+b), lifted twice
    lemma_add_comm(b, c);
    lemma_add_compat(rat_add(b, c), rat_add(c, b), a, a);
    lemma_add_comm(rat_add(b, c), a);
    lemma_add_comm(rat_add(c, b), a);
    lemma_eqv_trans(
        rat_add(a, rat_add(b, c)),
        rat_add(rat_add(b, c), a),
        rat_add(rat_add(c, b), a),
    );
    lemma_eqv_trans(
        rat_add(a, rat_add(b, c)),
        rat_add(rat_add(c, b), a),
        rat_add(a, rat_add(c, b)),
    );
    lemma_add_compat(
        rat_add(a, rat_add(b, c)), rat_add(a, rat_add(c, b)), d, d,
    );
    // (a+(c+b)) ~ ((a+c)+b), lifted
    lemma_add_assoc(a, c, b);
    lemma_add_compat(
        rat_add(a, rat_add(c, b)), rat_add(rat_add(a, c), b), d, d,
    );
    // (((a+c)+b)+d) ~ ((a+c)+(b+d))
    lemma_add_assoc(rat_add(a, c), b, d);
    // chain everything together
    lemma_eqv_trans(
        rat_add(rat_add(a, b), rat_add(c, d)),
        rat_add(rat_add(rat_add(a, b), c), d),
        rat_add(rat_add(a, rat_add(b, c)), d),
    );
    lemma_eqv_trans(
        rat_add(rat_add(a, b), rat_add(c, d)),
        rat_add(rat_add(a, rat_add(b, c)), d),
        rat_add(rat_add(a, rat_add(c, b)), d),
    );
    lemma_eqv_trans(
        rat_add(rat_add(a, b), rat_add(c, d)),
        rat_add(rat_add(a, rat_add(c, b)), d),
        rat_add(rat_add(rat_add(a, c), b), d),
    );
    lemma_eqv_trans(
        rat_add(rat_add(a, b), rat_add(c, d)),
        rat_add(rat_add(rat_add(a, c), b), d),
        rat_add(rat_add(a, c), rat_add(b, d)),
    );
}

/// A quotient by a rational with positive numerator is well formed.
pub proof fn lemma_div_wf_pos(a: Rat, b: Rat)
    requires
        rat_wf(a),
        rat_wf(b),
        b.num > 0,
    ensures
        rat_wf(rat_div(a, b)),
{
    lemma_mul_strictly_positive(a.den, b.num);
}

/// Quotients of equal dividends by one positive divisor are equal.
pub proof fn lemma_div_compat_left(a: Rat, a2: Rat, b: Rat)
    requires
        rat_wf(a),
        rat_wf(a2),
        rat_wf(b),
        b.num > 0,
        rat_eqv(a, a2),
    ensures
        rat_eqv(rat_div(a, b), rat_div(a2, b)),
{
    assert((a.num * b.den) * (a2.den * b.num) == (a2.num * b.den) * (a.den * b.num))
        by (nonlinear_arith)
        requires
            a.num * a2.den == a2.num * a.den;
}

/// Equal rationals have the same sign.
pub proof fn lemma_sign_eqv(a: Rat, b: Rat)
    requires
        rat_wf(a),
        rat_wf(b),
        rat_eqv(a, b),
    ensures
        rat_is_nonneg(a) == rat_is_nonneg(b),
{
    assert((a.num >= 0) == (b.num >= 0)) by (nonlinear_arith)
        requires
            a.num * b.den == b.num * a.den,
            a.den > 0,
            b.den > 0;
}

/// Equal rationals agree on being strictly positive, and on being zero.
pub proof fn lemma_pos_eqv(a: Rat, b: Rat)
    requires
        rat_wf(a),
        rat_wf(b),
        rat_eqv(a, b),
    ensures
        (a.num > 0) == (b.num > 0),
        (a.num == 0) == (b.num == 0),
{
    assert(((a.num > 0) == (b.num > 0)) && ((a.num == 0) == (b.num == 0)))
        by (nonlinear_arith)
        requires
            a.num * b.den == b.num * a.den,
            a.den > 0,
            b.den > 0;
}

/// Equal rationals have the same floor.
pub proof fn lemma_floor_eqv(a: Rat, b: Rat)
    requires
        rat_wf(a),
        rat_wf(b),
        rat_eqv(a, b),
    ensures
        rat_floor(a) == rat_floor(b),
{
    lemma_fundamental_div_mod(a.num, a.den);
    lemma_fundamental_div_mod(b.num, b.den);
    lemma_mod_bound(a.num, a.den);
    lemma_mod_bound(b.num, b.den);
    let qa = a.num / a.den;
    let ra = a.num % a.den;
    let qb = b.num / b.den;
    let rb = b.num % b.den;
    assert(qa == qb) by (nonlinear_arith)
        requires
            a.num == a.den * qa + ra,
            b.num == b.den * qb + rb,
            0 <= ra < a.den,
            0 <= rb < b.den,
            a.den > 0,
            b.den > 0,
            a.num * b.den == b.num * a.den;
}

/// Equal rationals round to the same integer.
pub proof fn lemma_round_eqv(a: Rat, b: Rat)
    requires
        rat_wf(a),
        rat_wf(b),
        rat_eqv(a, b),
    ensures
        rat_round(a) == rat_round(b),
{
    let a2 = Rat { num: 2 * a.num + a.den, den: 2 * a.den };
    let b2 = Rat { num: 2 * b.num + b.den, den: 2 * b.den };
    assert(rat_eqv(a2, b2)) by (nonlinear_arith)
        requires
            a.num * b.den == b.num * a.den,
            a2.num == 2 * a.num + a.den,
            a2.den == 2 * a.den,
            b2.num == 2 * b.num + b.den,
            b2.den == 2 * b.den;
    lemma_floor_eqv(a2, b2);
}

/// A rational equal to the integer `k` rounds to `k`.
pub proof fn lemma_round_int(a: Rat, k: int)
    requires
        rat_wf(a),
        rat_eqv(a, rat_of_int(k)),
    ensures
        rat_round(a) == k,
{
    lemma_round_eqv(a, rat_of_int(k));
    assert((2 * k + 1) / 2 == k) by {
        lemma_fundamental_div_mod(2 * k + 1, 2);
        lemma_mod_bound(2 * k + 1, 2);
        let q = (2 * k + 1) / 2;
        let r = (2 * k + 1) % 2;
        assert(q == k) by (nonlinear_arith)
            requires
                2 * k + 1 == 2 * q + r,
                0 <= r < 2;
    }
}

} // verus!
