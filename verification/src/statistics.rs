use vstd::prelude::*;

use crate::error::NirustError;
use crate::grid::{sample_wf, Sample, VoxelGrid};
use crate::ratio::{
    add_fits, div_fits, dominated, in_i128, lemma_add_bounds, lemma_add_dom, lemma_add_step,
    lemma_add_wf, lemma_div_bounds, lemma_div_compat_left, lemma_div_dom, lemma_div_wf_pos,
    lemma_eqv_trans, lemma_floor_eqv, lemma_mag_mul_pos, lemma_mag_prod_le, lemma_mul_bounds,
    lemma_mul_dom, lemma_mul_step, lemma_mul_wf, lemma_pos_eqv, lemma_sub_step, lemma_sub_wf,
    mag, mag_rat, mul_fits, rat_add, rat_div, rat_eqv, rat_mul, rat_of_int, rat_sub, rat_wf,
    sh_div, Rat, Ratio,
};

verus! {

/// The denominator of the fixed-precision square root: standard
/// deviations are represented on the grid `m / 2^20`.
pub const SQRT_DEN: i128 = 1048576;

/// `SQRT_DEN` squared: the factor by which a variance is scaled before
/// its integer square root is taken.
pub const SQRT_DEN_SQ: u128 = 1099511627776;

/// The rational a sample carries; zero for an undefined sample. Every
/// aggregate below pairs this with a predicate recording whether an
/// undefined sample was seen, and is only meaningful when none was.
pub open spec fn sample_rat(s: Sample) -> Rat {
    match s {
        Sample::Num(q) => q@,
        Sample::Undefined => rat_of_int(0),
    }
}

/// The sum of the first `n` timepoints at spatial index `sp` of a grid
/// whose flat storage interleaves `nt` timepoints per spatial index.
pub open spec fn spec_time_sum(data: Seq<Sample>, nt: int, sp: int, n: int) -> Rat
    decreases n,
{
    if n <= 0 {
        rat_of_int(0)
    } else {
        rat_add(spec_time_sum(data, nt, sp, n - 1), sample_rat(data[sp * nt + (n - 1)]))
    }
}

/// Whether any of the first `n` timepoints at spatial index `sp` is
/// undefined.
pub open spec fn spec_time_undef(data: Seq<Sample>, nt: int, sp: int, n: int) -> bool
    decreases n,
{
    if n <= 0 {
        false
    } else {
        spec_time_undef(data, nt, sp, n - 1) || data[sp * nt + (n - 1)] is Undefined
    }
}

/// The sum of squared deviations from `mean` over the first `n`
/// timepoints at spatial index `sp`.
pub open spec fn spec_sq_dev_sum(data: Seq<Sample>, nt: int, sp: int, mean: Rat, n: int) -> Rat
    decreases n,
{
    if n <= 0 {
        rat_of_int(0)
    } else {
        let d = rat_sub(sample_rat(data[sp * nt + (n - 1)]), mean);
        rat_add(spec_sq_dev_sum(data, nt, sp, mean, n - 1), rat_mul(d, d))
    }
}

/// The shadow of the running time sum: the fold of [`spec_time_sum`]
/// over magnitude shadows, bounding every representation the first
/// accumulation pass can produce.
pub open spec fn spec_time_sum_sh(data: Seq<Sample>, nt: int, sp: int, n: int) -> Rat
    decreases n,
{
    if n <= 0 {
        rat_of_int(0)
    } else {
        rat_add(
            spec_time_sum_sh(data, nt, sp, n - 1),
            mag_rat(sample_rat(data[sp * nt + (n - 1)])),
        )
    }
}

/// Whether every step of the first accumulation pass stays
/// representable.
pub open spec fn spec_time_sum_fits(data: Seq<Sample>, nt: int, sp: int, n: int) -> bool
    decreases n,
{
    if n <= 0 {
        true
    } else {
        spec_time_sum_fits(data, nt, sp, n - 1)
            && add_fits(
                spec_time_sum_sh(data, nt, sp, n - 1),
                mag_rat(sample_rat(data[sp * nt + (n - 1)])),
            )
    }
}

/// The shadow of the mean over time.
pub open spec fn spec_mean_sh(data: Seq<Sample>, nt: int, sp: int) -> Rat {
    sh_div(spec_time_sum_sh(data, nt, sp, nt), rat_of_int(nt))
}

/// The shadow of one squared deviation from the mean.
pub open spec fn spec_sq_dev_sh(data: Seq<Sample>, nt: int, sp: int, t: int) -> Rat {
    let dev = rat_add(mag_rat(sample_rat(data[sp * nt + t])), spec_mean_sh(data, nt, sp));
    rat_mul(dev, dev)
}

/// The shadow of the running sum of squared deviations.
pub open spec fn spec_sq_sum_sh(data: Seq<Sample>, nt: int, sp: int, n: int) -> Rat
    decreases n,
{
    if n <= 0 {
        rat_of_int(0)
    } else {
        rat_add(
            spec_sq_sum_sh(data, nt, sp, n - 1),
            spec_sq_dev_sh(data, nt, sp, n - 1),
        )
    }
}

/// Whether every step of the deviation pass stays representable.
pub open spec fn spec_sq_sum_fits(data: Seq<Sample>, nt: int, sp: int, n: int) -> bool
    decreases n,
{
    if n <= 0 {
        true
    } else {
        let dev = rat_add(
            mag_rat(sample_rat(data[sp * nt + (n - 1)])),
            spec_mean_sh(data, nt, sp),
        );
        &&& spec_sq_sum_fits(data, nt, sp, n - 1)
        &&& add_fits(mag_rat(sample_rat(data[sp * nt + (n - 1)])), spec_mean_sh(data, nt, sp))
        &&& mul_fits(dev, dev)
        &&& add_fits(spec_sq_sum_sh(data, nt, sp, n - 1), spec_sq_dev_sh(data, nt, sp, n - 1))
    }
}

/// The bounds under which the temporal-SNR sample of one spatial index
/// is owed: both accumulation passes, both divisions, the variance
/// scaling, and the final quotient stay representable. The bounds are
/// functions of the grid's samples alone.
pub open spec fn spec_tsnr_fits(data: Seq<Sample>, nt: int, sp: int) -> bool {
    let sumsh = spec_time_sum_sh(data, nt, sp, nt);
    let meansh = spec_mean_sh(data, nt, sp);
    let sqsh = spec_sq_sum_sh(data, nt, sp, nt);
    let varsh = sh_div(sqsh, rat_of_int(nt - 1));
    &&& spec_time_sum_fits(data, nt, sp, nt)
    &&& div_fits(sumsh, rat_of_int(nt))
    &&& spec_sq_sum_fits(data, nt, sp, nt)
    &&& div_fits(sqsh, rat_of_int(nt - 1))
    &&& varsh.num * (SQRT_DEN_SQ as int) <= u128::MAX as int
    &&& in_i128(meansh.num * (SQRT_DEN as int))
    &&& in_i128(meansh.den * 18446744073709551615)
}

/// Each step bound of the first pass follows from the whole pass's.
proof fn lemma_time_sum_fits_step(data: Seq<Sample>, nt: int, sp: int, n: int, k: int)
    requires
        spec_time_sum_fits(data, nt, sp, n),
        0 <= k < n,
    ensures
        add_fits(
            spec_time_sum_sh(data, nt, sp, k),
            mag_rat(sample_rat(data[sp * nt + k])),
        ),
    decreases n,
{
    if k < n - 1 {
        lemma_time_sum_fits_step(data, nt, sp, n - 1, k);
    }
}

/// Each step bound of the deviation pass follows from the whole pass's.
proof fn lemma_sq_sum_fits_step(data: Seq<Sample>, nt: int, sp: int, n: int, k: int)
    requires
        spec_sq_sum_fits(data, nt, sp, n),
        0 <= k < n,
    ensures
        add_fits(mag_rat(sample_rat(data[sp * nt + k])), spec_mean_sh(data, nt, sp)),
        mul_fits(
            rat_add(mag_rat(sample_rat(data[sp * nt + k])), spec_mean_sh(data, nt, sp)),
            rat_add(mag_rat(sample_rat(data[sp * nt + k])), spec_mean_sh(data, nt, sp)),
        ),
        add_fits(spec_sq_sum_sh(data, nt, sp, k), spec_sq_dev_sh(data, nt, sp, k)),
    decreases n,
{
    if k < n - 1 {
        lemma_sq_sum_fits_step(data, nt, sp, n - 1, k);
    }
}

/// `m` is the integer square root of `q`.
pub open spec fn is_isqrt(m: int, q: int) -> bool {
    m >= 0 && m * m <= q && q < (m + 1) * (m + 1)
}

/// The integer square root of a non-negative integer.
pub open spec fn spec_isqrt(q: int) -> int {
    choose|m: int| is_isqrt(m, q)
}

/// The variance scaled by `SQRT_DEN_SQ` and floored, the integer whose
/// square root gives the fixed-precision standard deviation.
pub open spec fn spec_scaled_var(v: Rat) -> int {
    (v.num * (SQRT_DEN_SQ as int)) / v.den
}

/// What the temporal-SNR map holds at one spatial index, given the
/// source grid's flat data: undefined when any timepoint is undefined,
/// when there is only one timepoint, or when the standard deviation is
/// zero at the fixed precision; otherwise the mean over time divided by
/// the fixed-precision sample standard deviation (squared deviations
/// summed over `nt - 1`).
pub open spec fn spec_tsnr_matches(out_s: Sample, data: Seq<Sample>, nt: int, sp: int) -> bool {
    let sum = spec_time_sum(data, nt, sp, nt);
    let mean = rat_div(sum, rat_of_int(nt));
    if spec_time_undef(data, nt, sp, nt) || nt == 1 {
        out_s is Undefined
    } else {
        let ssd = spec_sq_dev_sum(data, nt, sp, mean, nt);
        let var = rat_div(ssd, rat_of_int(nt - 1));
        if var.num <= 0 || spec_isqrt(spec_scaled_var(var)) == 0 {
            out_s is Undefined
        } else {
            out_s matches Sample::Num(w) && w.wf()
                && rat_eqv(w@, rat_div(mean, Rat {
                    num: spec_isqrt(spec_scaled_var(var)),
                    den: SQRT_DEN as int,
                }))
        }
    }
}

/// Two integers that both square-bracket `q` are equal.
proof fn lemma_isqrt_unique(q: int, m1: int, m2: int)
    requires
        is_isqrt(m1, q),
        is_isqrt(m2, q),
    ensures
        m1 == m2,
{
    assert(m1 == m2) by (nonlinear_arith)
        requires
            m1 >= 0,
            m2 >= 0,
            m1 * m1 <= q,
            q < (m1 + 1) * (m1 + 1),
            m2 * m2 <= q,
            q < (m2 + 1) * (m2 + 1);
}

/// Equal variances scale to the same floored integer.
proof fn lemma_scaled_eqv(a: Rat, b: Rat)
    requires
        rat_wf(a),
        rat_wf(b),
        rat_eqv(a, b),
    ensures
        spec_scaled_var(a) == spec_scaled_var(b),
{
    let sa = Rat { num: a.num * (SQRT_DEN_SQ as int), den: a.den };
    let sb = Rat { num: b.num * (SQRT_DEN_SQ as int), den: b.den };
    assert(rat_eqv(sa, sb)) by (nonlinear_arith)
        requires
            a.num * b.den == b.num * a.den,
            sa.num == a.num * (SQRT_DEN_SQ as int),
            sb.num == b.num * (SQRT_DEN_SQ as int),
            sa.den == a.den,
            sb.den == b.den;
    lemma_floor_eqv(sa, sb);
}

/// A time sum of well-formed samples is well formed.
proof fn lemma_time_sum_wf(data: Seq<Sample>, nt: int, sp: int, n: int)
    requires
        forall|f: int| 0 <= f < data.len() ==> sample_wf(#[trigger] data[f]),
        sp >= 0,
        nt >= 1,
        0 <= n <= nt,
        sp * nt + nt <= data.len(),
    ensures
        rat_wf(spec_time_sum(data, nt, sp, n)),
    decreases n,
{
    if n > 0 {
        lemma_time_sum_wf(data, nt, sp, n - 1);
        assert(0 <= sp * nt + (n - 1) < data.len()) by (nonlinear_arith)
            requires
                sp >= 0,
                nt >= 1,
                1 <= n <= nt,
                sp * nt + nt <= data.len();
        lemma_add_wf(spec_time_sum(data, nt, sp, n - 1), sample_rat(data[sp * nt + (n - 1)]));
    }
}

/// A sum of squared deviations from a well-formed mean is well formed.
proof fn lemma_sq_dev_sum_wf(data: Seq<Sample>, nt: int, sp: int, mean: Rat, n: int)
    requires
        forall|f: int| 0 <= f < data.len() ==> sample_wf(#[trigger] data[f]),
        sp >= 0,
        nt >= 1,
        0 <= n <= nt,
        sp * nt + nt <= data.len(),
        rat_wf(mean),
    ensures
        rat_wf(spec_sq_dev_sum(data, nt, sp, mean, n)),
    decreases n,
{
    if n > 0 {
        lemma_sq_dev_sum_wf(data, nt, sp, mean, n - 1);
        assert(0 <= sp * nt + (n - 1) < data.len()) by (nonlinear_arith)
            requires
                sp >= 0,
                nt >= 1,
                1 <= n <= nt,
                sp * nt + nt <= data.len();
        let d = rat_sub(sample_rat(data[sp * nt + (n - 1)]), mean);
        lemma_sub_wf(sample_rat(data[sp * nt + (n - 1)]), mean);
        lemma_mul_wf(d, d);
        lemma_add_wf(spec_sq_dev_sum(data, nt, sp, mean, n - 1), rat_mul(d, d));
    }
}

/// When no timepoint of a voxel is undefined, each one carries a value.
proof fn lemma_no_undef(data: Seq<Sample>, nt: int, sp: int, n: int)
    requires
        !spec_time_undef(data, nt, sp, n),
        0 <= n,
    ensures
        forall|t: int| 0 <= t < n ==> !((#[trigger] data[sp * nt + t]) is Undefined),
    decreases n,
{
    if n > 0 {
        lemma_no_undef(data, nt, sp, n - 1);
    }
}

/// The integer square root of `q`, by bisection.
fn isqrt_u128(q: u128) -> (r: u128)
    ensures
        is_isqrt(r as int, q as int),
        r < 18446744073709551616,
{
    let mut lo: u128 = 0;
    let mut hi: u128 = 18446744073709551616;
    proof {
        assert((hi as int) * (hi as int) > q as int) by (nonlinear_arith)
            requires
                hi as int == 18446744073709551616,
                q as int <= 340282366920938463463374607431768211455;
    }
    while lo + 1 < hi
        invariant
            lo < hi,
            hi <= 18446744073709551616,
            (lo as int) * (lo as int) <= q as int,
            (q as int) < (hi as int) * (hi as int),
        decreases hi - lo,
    {
        let mid = lo + (hi - lo) / 2;
        proof {
            assert((mid as int) * (mid as int) <= 340282366920938463463374607431768211455)
                by (nonlinear_arith)
                requires
                    0 <= mid as int <= 18446744073709551615;
        }
        if mid * mid <= q {
            lo = mid;
        } else {
            hi = mid;
        }
    }
    lo
}

/// The temporal-SNR sample of one spatial index of a 4-D grid.
fn tsnr_voxel(signal: &VoxelGrid, sp: usize) -> (r: Result<Sample, NirustError>)
    requires
        signal.wf(),
        signal.four_d,
        (sp as int) * (signal.nt as int) + (signal.nt as int) <= signal.data@.len(),
    ensures
        r matches Ok(s) ==> sample_wf(s)
            && spec_tsnr_matches(s, signal.data@, signal.nt as int, sp as int),
        r matches Err(e) ==> e == NirustError::ArithmeticOverflow,
        spec_tsnr_fits(signal.data@, signal.nt as int, sp as int) ==> r is Ok,
{
    let nt = signal.nt;
    let len = signal.data.len();
    let ghost d = signal.data@;
    let ghost nti = signal.nt as int;
    let ghost spi = sp as int;

    let mut t: usize = 0;
    let mut sum = Ratio::zero();
    let mut undef = false;
    while t < nt
        invariant
            signal.wf(),
            signal.nt == nt,
            signal.data@ == d,
            len == d.len(),
            (sp as int) * nti + nti <= d.len(),
            nti == nt as int,
            spi == sp as int,
            t <= nt,
            sum.wf(),
            undef == spec_time_undef(d, nti, spi, t as int),
            !undef ==> rat_eqv(sum@, spec_time_sum(d, nti, spi, t as int)),
            !undef ==> dominated(sum@, spec_time_sum_sh(d, nti, spi, t as int)),
        decreases nt - t,
    {
        proof {
            assert(0 <= spi * nti + (t as int) < d.len() && spi * nti + nti <= usize::MAX)
                by (nonlinear_arith)
                requires
                    spi >= 0,
                    nti >= 1,
                    0 <= (t as int) < nti,
                    spi * nti + nti <= d.len(),
                    d.len() <= usize::MAX;
        }
        let idx = sp * nt + t;
        let x = signal.data[idx];
        match x {
            Sample::Undefined => {
                undef = true;
            },
            Sample::Num(q) => {
                if !undef {
                    let s2 = match sum.add(q) {
                        Some(v) => v,
                        None => {
                            proof {
                                if spec_tsnr_fits(d, nti, spi) {
                                    lemma_time_sum_fits_step(d, nti, spi, nti, t as int);
                                    lemma_add_bounds(
                                        sum@, q@,
                                        spec_time_sum_sh(d, nti, spi, t as int),
                                        mag_rat(sample_rat(x)),
                                    );
                                    assert(false);
                                }
                            }
                            return Err(NirustError::ArithmeticOverflow);
                        },
                    };
                    proof {
                        lemma_time_sum_wf(d, nti, spi, t as int);
                        lemma_add_step(
                            s2@, sum@, q@,
                            spec_time_sum(d, nti, spi, t as int), sample_rat(x),
                        );
                        lemma_add_dom(
                            sum@, q@,
                            spec_time_sum_sh(d, nti, spi, t as int),
                            mag_rat(sample_rat(x)),
                        );
                        assert(dominated(s2@, spec_time_sum_sh(d, nti, spi, t as int + 1)));
                    }
                    sum = s2;
                }
            },
        }
        t += 1;
    }
    if undef {
        return Ok(Sample::Undefined);
    }
    if nt == 1 {
        return Ok(Sample::Undefined);
    }

    let ghost spec_sum = spec_time_sum(d, nti, spi, nti);
    let ghost spec_mean = rat_div(spec_sum, rat_of_int(nti));
    let ntr = Ratio::from_i128(nt as i128);
    let mean = match sum.div(ntr) {
        Some(v) => v,
        None => {
            proof {
                if spec_tsnr_fits(d, nti, spi) {
                    lemma_div_bounds(
                        sum@, ntr@,
                        spec_time_sum_sh(d, nti, spi, nti), rat_of_int(nti),
                    );
                    assert(false);
                }
            }
            return Err(NirustError::ArithmeticOverflow);
        },
    };
    proof {
        lemma_time_sum_wf(d, nti, spi, nti);
        lemma_div_compat_left(sum@, spec_sum, rat_of_int(nti));
        lemma_div_wf_pos(sum@, rat_of_int(nti));
        lemma_div_wf_pos(spec_sum, rat_of_int(nti));
        lemma_eqv_trans(mean@, rat_div(sum@, rat_of_int(nti)), spec_mean);
        lemma_div_dom(sum@, ntr@, spec_time_sum_sh(d, nti, spi, nti), rat_of_int(nti));
        assert(dominated(mean@, spec_mean_sh(d, nti, spi)));
    }

    let mut t2: usize = 0;
    let mut ssd = Ratio::zero();
    proof {
        lemma_no_undef(d, nti, spi, nti);
    }
    while t2 < nt
        invariant
            signal.wf(),
            signal.nt == nt,
            signal.data@ == d,
            len == d.len(),
            (sp as int) * nti + nti <= d.len(),
            nti == nt as int,
            spi == sp as int,
            t2 <= nt,
            ssd.wf(),
            mean.wf(),
            rat_wf(spec_mean),
            rat_eqv(mean@, spec_mean),
            dominated(mean@, spec_mean_sh(d, nti, spi)),
            forall|u: int| 0 <= u < nti ==> !((#[trigger] d[spi * nti + u]) is Undefined),
            rat_eqv(ssd@, spec_sq_dev_sum(d, nti, spi, spec_mean, t2 as int)),
            dominated(ssd@, spec_sq_sum_sh(d, nti, spi, t2 as int)),
        decreases nt - t2,
    {
        proof {
            assert(0 <= spi * nti + (t2 as int) < d.len() && spi * nti + nti <= usize::MAX)
                by (nonlinear_arith)
                requires
                    spi >= 0,
                    nti >= 1,
                    0 <= (t2 as int) < nti,
                    spi * nti + nti <= d.len(),
                    d.len() <= usize::MAX;
        }
        let idx = sp * nt + t2;
        let x = signal.data[idx];
        let q = match x {
            Sample::Num(q) => q,
            Sample::Undefined => {
                proof {
                    assert(false);
                }
                return Err(NirustError::ArithmeticOverflow);
            },
        };
        let ghost devsh = rat_add(mag_rat(sample_rat(x)), spec_mean_sh(d, nti, spi));
        let dev = match q.sub(mean) {
            Some(v) => v,
            None => {
                proof {
                    if spec_tsnr_fits(d, nti, spi) {
                        lemma_sq_sum_fits_step(d, nti, spi, nti, t2 as int);
                        lemma_add_bounds(
                            q@, mean@,
                            mag_rat(sample_rat(x)), spec_mean_sh(d, nti, spi),
                        );
                        assert(false);
                    }
                }
                return Err(NirustError::ArithmeticOverflow);
            },
        };
        proof {
            lemma_add_dom(q@, mean@, mag_rat(sample_rat(x)), spec_mean_sh(d, nti, spi));
            assert(dominated(dev@, devsh));
        }
        let sq = match dev.mul(dev) {
            Some(v) => v,
            None => {
                proof {
                    if spec_tsnr_fits(d, nti, spi) {
                        lemma_sq_sum_fits_step(d, nti, spi, nti, t2 as int);
                        lemma_mul_bounds(dev@, dev@, devsh, devsh);
                        assert(false);
                    }
                }
                return Err(NirustError::ArithmeticOverflow);
            },
        };
        proof {
            lemma_mul_dom(dev@, dev@, devsh, devsh);
            assert(dominated(sq@, spec_sq_dev_sh(d, nti, spi, t2 as int)));
        }
        let s2 = match ssd.add(sq) {
            Some(v) => v,
            None => {
                proof {
                    if spec_tsnr_fits(d, nti, spi) {
                        lemma_sq_sum_fits_step(d, nti, spi, nti, t2 as int);
                        lemma_add_bounds(
                            ssd@, sq@,
                            spec_sq_sum_sh(d, nti, spi, t2 as int),
                            spec_sq_dev_sh(d, nti, spi, t2 as int),
                        );
                        assert(false);
                    }
                }
                return Err(NirustError::ArithmeticOverflow);
            },
        };
        proof {
            let sdev = rat_sub(sample_rat(x), spec_mean);
            lemma_sub_step(dev@, q@, mean@, sample_rat(x), spec_mean);
            lemma_mul_step(sq@, dev@, dev@, sdev, sdev);
            lemma_sq_dev_sum_wf(d, nti, spi, spec_mean, t2 as int);
            lemma_add_step(
                s2@, ssd@, sq@,
                spec_sq_dev_sum(d, nti, spi, spec_mean, t2 as int),
                rat_mul(sdev, sdev),
            );
            lemma_add_dom(
                ssd@, sq@,
                spec_sq_sum_sh(d, nti, spi, t2 as int),
                spec_sq_dev_sh(d, nti, spi, t2 as int),
            );
            assert(dominated(s2@, spec_sq_sum_sh(d, nti, spi, t2 as int + 1)));
        }
        ssd = s2;
        t2 += 1;
    }

    let ghost spec_ssd = spec_sq_dev_sum(d, nti, spi, spec_mean, nti);
    let ghost spec_var = rat_div(spec_ssd, rat_of_int(nti - 1));
    let nm1 = Ratio::from_i128((nt - 1) as i128);
    let ghost varsh = sh_div(spec_sq_sum_sh(d, nti, spi, nti), rat_of_int(nti - 1));
    let var = match ssd.div(nm1) {
        Some(v) => v,
        None => {
            proof {
                if spec_tsnr_fits(d, nti, spi) {
                    lemma_div_bounds(
                        ssd@, nm1@,
                        spec_sq_sum_sh(d, nti, spi, nti), rat_of_int(nti - 1),
                    );
                    assert(false);
                }
            }
            return Err(NirustError::ArithmeticOverflow);
        },
    };
    proof {
        lemma_sq_dev_sum_wf(d, nti, spi, spec_mean, nti);
        lemma_div_compat_left(ssd@, spec_ssd, rat_of_int(nti - 1));
        lemma_div_wf_pos(ssd@, rat_of_int(nti - 1));
        lemma_div_wf_pos(spec_ssd, rat_of_int(nti - 1));
        lemma_eqv_trans(var@, rat_div(ssd@, rat_of_int(nti - 1)), spec_var);
        lemma_pos_eqv(var@, spec_var);
        lemma_div_dom(ssd@, nm1@, spec_sq_sum_sh(d, nti, spi, nti), rat_of_int(nti - 1));
        assert(dominated(var@, varsh));
    }
    if var.num <= 0 {
        return Ok(Sample::Undefined);
    }

    proof {
        lemma_scaled_eqv(var@, spec_var);
    }
    let nu = var.num as u128;
    let du = var.den as u128;
    let prod = match nu.checked_mul(SQRT_DEN_SQ) {
        Some(v) => v,
        None => {
            proof {
                if spec_tsnr_fits(d, nti, spi) {
                    lemma_mag_prod_le(
                        nu as int, SQRT_DEN_SQ as int, varsh.num, SQRT_DEN_SQ as int,
                    );
                    assert(false);
                }
            }
            return Err(NirustError::ArithmeticOverflow);
        },
    };
    let scaled = prod / du;
    proof {
        assert(scaled as int == spec_scaled_var(var@));
    }
    let m = isqrt_u128(scaled);
    proof {
        if spec_isqrt(scaled as int) != m as int {
            lemma_isqrt_unique(scaled as int, m as int, spec_isqrt(scaled as int));
        }
        assert(spec_isqrt(spec_scaled_var(spec_var)) == m as int);
    }
    if m == 0 {
        return Ok(Sample::Undefined);
    }
    let std = Ratio { num: m as i128, den: SQRT_DEN };
    let w = match mean.div(std) {
        Some(v) => v,
        None => {
            proof {
                if spec_tsnr_fits(d, nti, spi) {
                    lemma_mag_mul_pos(mean@.num, std@.den);
                    lemma_mag_prod_le(
                        mag(mean@.num), std@.den,
                        spec_mean_sh(d, nti, spi).num, SQRT_DEN as int,
                    );
                    lemma_mag_prod_le(
                        mean@.den, std@.num,
                        spec_mean_sh(d, nti, spi).den, 18446744073709551615,
                    );
                    assert(false);
                }
            }
            return Err(NirustError::ArithmeticOverflow);
        },
    };
    proof {
        lemma_div_compat_left(mean@, spec_mean, std@);
        lemma_div_wf_pos(mean@, std@);
        lemma_div_wf_pos(spec_mean, std@);
        lemma_eqv_trans(w@, rat_div(mean@, std@), rat_div(spec_mean, std@));
        assert(std@ == Rat { num: spec_isqrt(spec_scaled_var(spec_var)), den: SQRT_DEN as int });
    }
    Ok(Sample::Num(w))
}

/// The voxel-wise temporal signal-to-noise ratio of a 4-D grid: at every
/// spatial voxel, the mean over the time axis divided by the sample
/// standard deviation over the time axis (squared deviations summed over
/// `nt - 1`, the square root taken at fixed precision `1 / 2^20`).
///
/// A grid without a time axis is rejected with `RankMismatch` before any
/// computation; the only other failure is overflow of the exact
/// representation. Voxels whose standard deviation is zero — or rounds to
/// zero at the fixed precision — and voxels touching an undefined sample
/// come out `Undefined`.
pub fn voxelwise_tsnr(signal: &VoxelGrid) -> (res: Result<VoxelGrid, NirustError>)
    requires
        signal.wf(),
    ensures
        res == Err::<VoxelGrid, NirustError>(NirustError::RankMismatch) <==> !signal.four_d,
        res matches Ok(out) ==> signal.four_d && out.wf() && !out.four_d
            && out.nx == signal.nx && out.ny == signal.ny && out.nz == signal.nz && out.nt == 1
            && forall|i: int, j: int, k: int| out.in_bounds(i, j, k, 0) ==>
                spec_tsnr_matches(
                    #[trigger] out.at3(i, j, k),
                    signal.data@,
                    signal.nt as int,
                    (i * signal.ny + j) * signal.nz + k,
                ),
        res matches Err(e) ==> e == NirustError::RankMismatch
            || e == NirustError::ArithmeticOverflow,
        signal.four_d && (forall|sp: int|
            0 <= sp < (signal.nx as int) * (signal.ny as int) * (signal.nz as int)
            ==> #[trigger] spec_tsnr_fits(signal.data@, signal.nt as int, sp))
            ==> res is Ok,
{
    if !signal.four_d {
        return Err(NirustError::RankMismatch);
    }
    let len = signal.data.len();
    proof {
        assert((signal.nx as int) * (signal.ny as int) <= len as int
            && (signal.nx as int) * (signal.ny as int) * (signal.nz as int) <= len as int)
            by (nonlinear_arith)
            requires
                len as int == (signal.nx as int) * (signal.ny as int) * (signal.nz as int)
                    * (signal.nt as int),
                signal.nx as int >= 1,
                signal.ny as int >= 1,
                signal.nz as int >= 1,
                signal.nt as int >= 1;
    }
    let nsp = signal.nx * signal.ny * signal.nz;
    let mut data: Vec<Sample> = Vec::new();
    let mut sp: usize = 0;
    while sp < nsp
        invariant
            signal.wf(),
            signal.four_d,
            nsp as int == (signal.nx as int) * (signal.ny as int) * (signal.nz as int),
            (nsp as int) * (signal.nt as int) == signal.data@.len(),
            sp <= nsp,
            data@.len() == sp,
            forall|f: int| 0 <= f < sp ==> sample_wf(#[trigger] data@[f]),
            forall|f: int| 0 <= f < sp ==> spec_tsnr_matches(
                #[trigger] data@[f], signal.data@, signal.nt as int, f),
        decreases nsp - sp,
    {
        proof {
            assert((sp as int) * (signal.nt as int) + (signal.nt as int)
                <= (nsp as int) * (signal.nt as int)) by (nonlinear_arith)
                requires
                    0 <= (sp as int) < nsp as int,
                    signal.nt as int >= 1;
        }
        let s = match tsnr_voxel(signal, sp) {
            Ok(v) => v,
            Err(e) => {
                proof {
                    assert(!spec_tsnr_fits(signal.data@, signal.nt as int, sp as int));
                }
                return Err(e);
            },
        };
        data.push(s);
        sp += 1;
    }
    let out = VoxelGrid {
        nx: signal.nx,
        ny: signal.ny,
        nz: signal.nz,
        nt: 1,
        four_d: false,
        data,
    };
    proof {
        assert((signal.nx as int) * (signal.ny as int) * (signal.nz as int)
            == (signal.nx as int) * (signal.ny as int) * (signal.nz as int) * 1)
            by (nonlinear_arith);
        assert forall|i: int, j: int, k: int| out.in_bounds(i, j, k, 0) implies
            spec_tsnr_matches(
                #[trigger] out.at3(i, j, k),
                signal.data@,
                signal.nt as int,
                (i * signal.ny + j) * signal.nz + k,
            ) by {
            assert(out.flat(i, j, k, 0) == (i * signal.ny + j) * signal.nz + k)
                by (nonlinear_arith)
                requires
                    out.flat(i, j, k, 0) == ((i * out.ny + j) * out.nz + k) * out.nt + 0,
                    out.ny == signal.ny as int,
                    out.nz == signal.nz as int,
                    out.nt == 1;
            assert(0 <= (i * signal.ny + j) * signal.nz + k < nsp as int) by (nonlinear_arith)
                requires
                    0 <= i < signal.nx as int,
                    0 <= j < signal.ny as int,
                    0 <= k < signal.nz as int,
                    nsp as int == (signal.nx as int) * (signal.ny as int) * (signal.nz as int);
        }
    }
    Ok(out)
}

} // verus!
