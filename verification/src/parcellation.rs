use vstd::prelude::*;

use crate::affine::{is_inverse, spec_det3, AffineMatrix};
use crate::error::NirustError;
use crate::grid::{sample_wf, Sample, VoxelGrid};
use crate::ratio::{
    add_fits, div_fits, dominated, lemma_add_bounds, lemma_add_dom, lemma_add_step,
    lemma_add_wf, lemma_div_bounds, lemma_div_compat_left, lemma_div_wf_pos, lemma_eqv_trans,
    lt_overflows, mag_rat, rat_add, rat_div, rat_eqv, rat_floor, rat_lt, rat_of_int, rat_wf,
    sh_div, Rat, Ratio,
};
use crate::resample::{resample_3d_nifti, resampled_composed};
use crate::statistics::sample_rat;

verus! {

/// Per-region aggregates of a signal over a label volume: one mean per
/// region for a rank-3 signal, one time series per region for a rank-4
/// signal. Entry `r - 1` belongs to region `r`; background label 0 has no
/// entry.
pub enum ParcellationResult {
    Means(Vec<Sample>),
    Series(Vec<Vec<Sample>>),
}

/// Whether a label sample selects region `r`: it carries a value equal to
/// the integer `r`.
pub open spec fn matches_label(s: Sample, r: int) -> bool {
    match s {
        Sample::Num(q) => rat_eqv(q@, rat_of_int(r)),
        Sample::Undefined => false,
    }
}

/// The largest value among the first `n` label samples, starting from
/// zero; undefined samples are passed over.
pub open spec fn spec_max_val(data: Seq<Sample>, n: int) -> Rat
    decreases n,
{
    if n <= 0 {
        rat_of_int(0)
    } else {
        let prev = spec_max_val(data, n - 1);
        match data[n - 1] {
            Sample::Num(q) => if rat_lt(prev, q@) { q@ } else { prev },
            Sample::Undefined => prev,
        }
    }
}

/// The region count of a label volume: the largest label value observed,
/// floored, and zero when every value is below zero. Regions are assumed
/// densely numbered `1..=N`; a number in that range with no voxels is
/// reported as an empty region, not passed over.
pub open spec fn spec_n_regions(data: Seq<Sample>, n: int) -> int {
    let f = rat_floor(spec_max_val(data, n));
    if f < 0 { 0 } else { f }
}

/// How many of the first `n` label samples select region `r`.
pub open spec fn spec_region_count(labels: Seq<Sample>, r: int, n: int) -> int
    decreases n,
{
    if n <= 0 {
        0
    } else {
        spec_region_count(labels, r, n - 1) + if matches_label(labels[n - 1], r) { 1int } else { 0int }
    }
}

/// Whether region `r` contains, among the first `n` spatial indices, a
/// member whose signal at timepoint `t` is undefined.
pub open spec fn spec_region_tundef(
    sig: Seq<Sample>, labels: Seq<Sample>, nt: int, t: int, r: int, n: int,
) -> bool
    decreases n,
{
    if n <= 0 {
        false
    } else {
        spec_region_tundef(sig, labels, nt, t, r, n - 1)
            || (matches_label(labels[n - 1], r) && sig[(n - 1) * nt + t] is Undefined)
    }
}

/// The sum, over region `r`'s members among the first `n` spatial
/// indices, of the signal at timepoint `t`.
pub open spec fn spec_region_tsum(
    sig: Seq<Sample>, labels: Seq<Sample>, nt: int, t: int, r: int, n: int,
) -> Rat
    decreases n,
{
    if n <= 0 {
        rat_of_int(0)
    } else {
        let prev = spec_region_tsum(sig, labels, nt, t, r, n - 1);
        if matches_label(labels[n - 1], r) {
            rat_add(prev, sample_rat(sig[(n - 1) * nt + t]))
        } else {
            prev
        }
    }
}

/// The shadow of the running region sum at timepoint `t`: the fold of
/// [`spec_region_tsum`] over magnitude shadows, bounding every
/// representation the accumulation can produce.
pub open spec fn spec_region_tsum_sh(
    sig: Seq<Sample>, labels: Seq<Sample>, nt: int, t: int, r: int, n: int,
) -> Rat
    decreases n,
{
    if n <= 0 {
        rat_of_int(0)
    } else {
        let prev = spec_region_tsum_sh(sig, labels, nt, t, r, n - 1);
        if matches_label(labels[n - 1], r) {
            rat_add(prev, mag_rat(sample_rat(sig[(n - 1) * nt + t])))
        } else {
            prev
        }
    }
}

/// Whether every member-accumulation step at timepoint `t` stays
/// representable.
pub open spec fn spec_region_tsum_fits(
    sig: Seq<Sample>, labels: Seq<Sample>, nt: int, t: int, r: int, n: int,
) -> bool
    decreases n,
{
    if n <= 0 {
        true
    } else {
        spec_region_tsum_fits(sig, labels, nt, t, r, n - 1)
            && (matches_label(labels[n - 1], r) ==> add_fits(
                spec_region_tsum_sh(sig, labels, nt, t, r, n - 1),
                mag_rat(sample_rat(sig[(n - 1) * nt + t])),
            ))
    }
}

/// The bounds under which one region's row of means is owed: every
/// accumulation step and the final division by the member count stay
/// representable, at every timepoint.
pub open spec fn spec_region_fits(
    sig: Seq<Sample>, labels: Seq<Sample>, nt: int, r: int,
) -> bool {
    let nsp = labels.len() as int;
    &&& forall|t: int| 0 <= t < nt ==>
        spec_region_tsum_fits(sig, labels, nt, t, r, nsp)
            && div_fits(
                #[trigger] spec_region_tsum_sh(sig, labels, nt, t, r, nsp),
                rat_of_int(spec_region_count(labels, r, nsp)),
            )
}

/// Each accumulation step's bound follows from the whole pass's.
proof fn lemma_region_tsum_fits_step(
    sig: Seq<Sample>, labels: Seq<Sample>, nt: int, t: int, r: int, n: int, k: int,
)
    requires
        spec_region_tsum_fits(sig, labels, nt, t, r, n),
        0 <= k < n,
        matches_label(labels[k], r),
    ensures
        add_fits(
            spec_region_tsum_sh(sig, labels, nt, t, r, k),
            mag_rat(sample_rat(sig[k * nt + t])),
        ),
    decreases n,
{
    if k < n - 1 {
        lemma_region_tsum_fits_step(sig, labels, nt, t, r, n - 1, k);
    }
}

/// The bounds under which a whole parcellation is owed: the region count
/// can be computed, and every region's row fits and is non-empty.
pub open spec fn parcellate_fits(sig: VoxelGrid, labels: VoxelGrid) -> bool {
    let nsp = labels.data@.len() as int;
    &&& max_val_fits(labels.data@)
    &&& forall|rr: int| 1 <= rr <= spec_n_regions(labels.data@, nsp) ==>
        #[trigger] spec_region_fits(sig.data@, labels.data@, sig.nt as int, rr)
            && spec_region_count(labels.data@, rr, nsp) != 0
}

/// What one table entry must hold: undefined when the region touched an
/// undefined sample at that timepoint, else the exact mean `sum / count`.
pub open spec fn mean_matches(out_s: Sample, sum: Rat, count: int, undef: bool) -> bool {
    if undef {
        out_s is Undefined
    } else {
        out_s matches Sample::Num(q) && q.wf() && rat_eqv(q@, rat_div(sum, rat_of_int(count)))
    }
}

/// The full correctness of a parcellation table for `sig` over the
/// matched-shape label volume `labels`: one row per region `1..=N`, no
/// region empty, each entry the per-timepoint region mean.
pub open spec fn parc_table_ok(rows: Seq<Vec<Sample>>, sig: VoxelGrid, labels: VoxelGrid) -> bool {
    let nsp = labels.data@.len() as int;
    let n = spec_n_regions(labels.data@, nsp);
    &&& rows.len() == n
    &&& forall|r: int| 1 <= r <= n ==> spec_region_count(labels.data@, r, nsp) > 0
    &&& forall|r: int| 1 <= r <= n ==> (#[trigger] rows[r - 1])@.len() == sig.nt
    &&& forall|r: int, t: int| 1 <= r <= n && 0 <= t < sig.nt ==>
        mean_matches(
            rows[r - 1]@[t],
            #[trigger] spec_region_tsum(sig.data@, labels.data@, sig.nt as int, t, r, nsp),
            spec_region_count(labels.data@, r, nsp),
            spec_region_tundef(sig.data@, labels.data@, sig.nt as int, t, r, nsp),
        )
}

/// The rank-3 counterpart of [`parc_table_ok`]: one mean per region.
pub open spec fn parc_means_ok(v: Seq<Sample>, sig: VoxelGrid, labels: VoxelGrid) -> bool {
    let nsp = labels.data@.len() as int;
    let n = spec_n_regions(labels.data@, nsp);
    &&& v.len() == n
    &&& forall|r: int| 1 <= r <= n ==> spec_region_count(labels.data@, r, nsp) > 0
    &&& forall|r: int| 1 <= r <= n ==>
        mean_matches(
            #[trigger] v[r - 1],
            spec_region_tsum(sig.data@, labels.data@, sig.nt as int, 0, r, nsp),
            spec_region_count(labels.data@, r, nsp),
            spec_region_tundef(sig.data@, labels.data@, sig.nt as int, 0, r, nsp),
        )
}

/// A parcellation result is correct for a signal and a label volume of
/// the signal's spatial shape.
pub open spec fn parc_result_ok(p: ParcellationResult, sig: VoxelGrid, labels: VoxelGrid) -> bool {
    match p {
        ParcellationResult::Means(v) => !sig.four_d && parc_means_ok(v@, sig, labels),
        ParcellationResult::Series(rows) => sig.four_d && parc_table_ok(rows@, sig, labels),
    }
}

/// The label volume a parcellation actually aggregated over: the given
/// one when its spatial shape already matches the signal, else the given
/// one resampled onto the signal's grid.
pub open spec fn used_labels_ok(
    lg: VoxelGrid, labels: VoxelGrid, label_affine: AffineMatrix,
    signal_affine: AffineMatrix, sig: VoxelGrid,
) -> bool {
    if labels.same_spatial(sig) {
        lg == labels
    } else {
        exists|b: AffineMatrix| b.wf() && is_inverse(b, label_affine)
            && #[trigger] resampled_composed(lg, labels, b, signal_affine)
    }
}

/// Whether a label sample selects region `r`.
fn sample_matches_label(s: Sample, r: usize) -> (b: bool)
    requires
        sample_wf(s),
        r as int <= i64::MAX as int,
    ensures
        b == matches_label(s, r as int),
{
    match s {
        Sample::Num(q) => q.eqv_int(r as i64),
        Sample::Undefined => false,
    }
}

/// A region sum of well-formed samples is well formed.
proof fn lemma_region_tsum_wf(
    sig: Seq<Sample>, labels: Seq<Sample>, nt: int, t: int, r: int, n: int,
)
    requires
        forall|f: int| 0 <= f < sig.len() ==> sample_wf(#[trigger] sig[f]),
        nt >= 1,
        0 <= t < nt,
        0 <= n,
        n * nt <= sig.len(),
    ensures
        rat_wf(spec_region_tsum(sig, labels, nt, t, r, n)),
    decreases n,
{
    if n > 0 {
        assert((n - 1) * nt <= sig.len() && 0 <= (n - 1) * nt + t < sig.len())
            by (nonlinear_arith)
            requires
                n >= 1,
                nt >= 1,
                0 <= t < nt,
                n * nt <= sig.len();
        lemma_region_tsum_wf(sig, labels, nt, t, r, n - 1);
        if matches_label(labels[n - 1], r) {
            lemma_add_wf(
                spec_region_tsum(sig, labels, nt, t, r, n - 1),
                sample_rat(sig[(n - 1) * nt + t]),
            );
        }
    }
}

/// No comparison of the running maximum against a label sample can
/// overflow, and the resulting region count fits the index type: the
/// exact condition under which [`find_max_val`] is owed a result.
pub open spec fn max_val_fits(data: Seq<Sample>) -> bool {
    &&& forall|k: int| 0 <= k < data.len() && data[k] is Num ==>
        !(#[trigger] lt_overflows(spec_max_val(data, k), sample_rat(data[k])))
    &&& rat_floor(spec_max_val(data, data.len() as int)) <= 0x7fff_ffff
}

/// The number of regions in a label volume: its largest value, floored,
/// and at least zero. Fails only when a comparison leaves the exact
/// representation, or when the count would not fit the region index
/// type; [`max_val_fits`] rules both out.
fn find_max_val(labels: &VoxelGrid) -> (res: Result<usize, NirustError>)
    requires
        labels.wf(),
    ensures
        res matches Ok(n) ==> n as int == spec_n_regions(labels.data@, labels.data@.len() as int)
            && n as int <= 0x7fff_ffff,
        res matches Err(e) ==> e == NirustError::ArithmeticOverflow,
        max_val_fits(labels.data@) ==> res is Ok,
{
    let len = labels.data.len();
    let mut cur = Ratio::zero();
    let mut s: usize = 0;
    while s < len
        invariant
            labels.wf(),
            len == labels.data@.len(),
            s <= len,
            cur.wf(),
            cur@ == spec_max_val(labels.data@, s as int),
        decreases len - s,
    {
        let x = labels.data[s];
        match x {
            Sample::Num(q) => {
                let is_less = match cur.lt(q) {
                    Some(b) => b,
                    None => {
                        proof {
                            assert(lt_overflows(spec_max_val(labels.data@, s as int),
                                sample_rat(labels.data@[s as int])));
                        }
                        return Err(NirustError::ArithmeticOverflow);
                    },
                };
                if is_less {
                    cur = q;
                }
            },
            Sample::Undefined => {},
        }
        s += 1;
    }
    let fl = cur.floor();
    if fl < 0 {
        Ok(0)
    } else if fl > 0x7fff_ffff {
        Err(NirustError::ArithmeticOverflow)
    } else {
        Ok(fl as usize)
    }
}

/// The per-timepoint means of one region, or `EmptyRegion` exactly when
/// the region has no member voxels.
fn region_row(signal: &VoxelGrid, labels: &VoxelGrid, r: usize) -> (res: Result<Vec<Sample>, NirustError>)
    requires
        signal.wf(),
        labels.wf(),
        !labels.four_d,
        labels.same_spatial(*signal),
        1 <= r,
        r as int <= i64::MAX as int,
    ensures
        res matches Ok(row) ==> {
            let nsp = labels.data@.len() as int;
            &&& spec_region_count(labels.data@, r as int, nsp) > 0
            &&& row@.len() == signal.nt
            &&& forall|t: int| 0 <= t < signal.nt ==> mean_matches(
                #[trigger] row@[t],
                spec_region_tsum(signal.data@, labels.data@, signal.nt as int, t, r as int, nsp),
                spec_region_count(labels.data@, r as int, nsp),
                spec_region_tundef(signal.data@, labels.data@, signal.nt as int, t, r as int, nsp),
            )
        },
        res == Err::<Vec<Sample>, NirustError>(NirustError::EmptyRegion)
            <==> spec_region_count(
                labels.data@, r as int, labels.data@.len() as int) == 0,
        res matches Err(e) ==> e == NirustError::EmptyRegion
            || e == NirustError::ArithmeticOverflow,
        spec_region_fits(signal.data@, labels.data@, signal.nt as int, r as int)
            && spec_region_count(labels.data@, r as int, labels.data@.len() as int) != 0
            ==> res is Ok,
{
    let nsp = labels.data.len();
    let nt = signal.nt;
    let slen = signal.data.len();
    let ghost sd = signal.data@;
    let ghost ld = labels.data@;
    let ghost nti = nt as int;
    proof {
        assert(sd.len() == (nsp as int) * nti) by (nonlinear_arith)
            requires
                sd.len() == (signal.nx as int) * (signal.ny as int) * (signal.nz as int) * nti,
                ld.len() == (labels.nx as int) * (labels.ny as int) * (labels.nz as int) * 1,
                nsp as int == ld.len(),
                labels.nx == signal.nx,
                labels.ny == signal.ny,
                labels.nz == signal.nz;
    }

    // First pass: the member count, which cannot fail.
    let mut count: usize = 0;
    let mut s: usize = 0;
    while s < nsp
        invariant
            labels.wf(),
            nsp == ld.len(),
            ld == labels.data@,
            r as int <= i64::MAX as int,
            s <= nsp,
            count <= s,
            count as int == spec_region_count(ld, r as int, s as int),
        decreases nsp - s,
    {
        if sample_matches_label(labels.data[s], r) {
            count += 1;
        }
        s += 1;
    }
    if count == 0 {
        return Err(NirustError::EmptyRegion);
    }

    // Second pass: per-timepoint sums and undefined-sample flags.
    let mut sums: Vec<Ratio> = Vec::new();
    let mut undefs: Vec<bool> = Vec::new();
    let mut t0: usize = 0;
    while t0 < nt
        invariant
            t0 <= nt,
            sums@.len() == t0,
            undefs@.len() == t0,
            forall|u: int| 0 <= u < t0 ==> (#[trigger] sums@[u]).wf()
                && sums@[u]@ == rat_of_int(0),
            forall|u: int| 0 <= u < t0 ==> !(#[trigger] undefs@[u]),
        decreases nt - t0,
    {
        sums.push(Ratio::zero());
        undefs.push(false);
        t0 += 1;
    }

    let mut s2: usize = 0;
    while s2 < nsp
        invariant
            signal.wf(),
            labels.wf(),
            signal.nt == nt,
            nsp == ld.len(),
            ld == labels.data@,
            sd == signal.data@,
            slen == sd.len(),
            sd.len() == (nsp as int) * nti,
            nti == nt as int,
            nt >= 1,
            r as int <= i64::MAX as int,
            spec_region_count(ld, r as int, ld.len() as int) > 0,
            s2 <= nsp,
            sums@.len() == nt,
            undefs@.len() == nt,
            forall|u: int| 0 <= u < nti ==> (#[trigger] undefs@[u])
                == spec_region_tundef(sd, ld, nti, u, r as int, s2 as int),
            forall|u: int| 0 <= u < nti && !undefs@[u] ==> (#[trigger] sums@[u]).wf()
                && rat_eqv(sums@[u]@, spec_region_tsum(sd, ld, nti, u, r as int, s2 as int))
                && dominated(sums@[u]@, spec_region_tsum_sh(sd, ld, nti, u, r as int, s2 as int)),
        decreases nsp - s2,
    {
        let member = sample_matches_label(labels.data[s2], r);
        if member {
            let mut t: usize = 0;
            while t < nt
                invariant
                    signal.wf(),
                    signal.nt == nt,
                    nsp == ld.len(),
                    ld == labels.data@,
                    sd == signal.data@,
                    slen == sd.len(),
                    sd.len() == (nsp as int) * nti,
                    nti == nt as int,
                    nt >= 1,
                    s2 < nsp,
                    nsp == ld.len(),
                    spec_region_count(ld, r as int, ld.len() as int) > 0,
                    matches_label(ld[s2 as int], r as int),
                    t <= nt,
                    sums@.len() == nt,
                    undefs@.len() == nt,
                    forall|u: int| 0 <= u < t as int ==> (#[trigger] undefs@[u])
                        == spec_region_tundef(sd, ld, nti, u, r as int, s2 as int + 1),
                    forall|u: int| 0 <= u < t as int && !undefs@[u] ==> (#[trigger] sums@[u]).wf()
                        && rat_eqv(sums@[u]@, spec_region_tsum(sd, ld, nti, u, r as int, s2 as int + 1))
                        && dominated(sums@[u]@, spec_region_tsum_sh(sd, ld, nti, u, r as int, s2 as int + 1)),
                    forall|u: int| t as int <= u < nti ==> (#[trigger] undefs@[u])
                        == spec_region_tundef(sd, ld, nti, u, r as int, s2 as int),
                    forall|u: int| t as int <= u < nti && !undefs@[u] ==> (#[trigger] sums@[u]).wf()
                        && rat_eqv(sums@[u]@, spec_region_tsum(sd, ld, nti, u, r as int, s2 as int))
                        && dominated(sums@[u]@, spec_region_tsum_sh(sd, ld, nti, u, r as int, s2 as int)),
                decreases nt - t,
            {
                proof {
                    assert(0 <= (s2 as int) * nti + (t as int) < sd.len()
                        && (s2 as int) * nti + nti <= sd.len()
                        && (s2 as int) * nti >= 0) by (nonlinear_arith)
                        requires
                            0 <= (s2 as int) < (nsp as int),
                            nti >= 1,
                            0 <= (t as int) < nti,
                            sd.len() == (nsp as int) * nti;
                    assert(sd.len() <= usize::MAX);
                }
                let idx = s2 * nt + t;
                let x = signal.data[idx];
                let already = undefs[t];
                if !already {
                    match x {
                        Sample::Undefined => {
                            undefs.set(t, true);
                        },
                        Sample::Num(q) => {
                            let s_new = match sums[t].add(q) {
                                Some(v) => v,
                                None => {
                                    proof {
                                        if spec_region_fits(sd, ld, nti, r as int) {
                                            // Naming the whole-pass shadow picks this
                                            // timepoint out of the bound quantifier.
                                            let _sht = spec_region_tsum_sh(
                                                sd, ld, nti, t as int, r as int, ld.len() as int);
                                            assert(spec_region_tsum_fits(
                                                sd, ld, nti, t as int, r as int, ld.len() as int));
                                            lemma_region_tsum_fits_step(
                                                sd, ld, nti, t as int, r as int,
                                                ld.len() as int, s2 as int,
                                            );
                                            lemma_add_bounds(
                                                sums@[t as int]@, q@,
                                                spec_region_tsum_sh(
                                                    sd, ld, nti, t as int, r as int, s2 as int),
                                                mag_rat(sample_rat(x)),
                                            );
                                            assert(false);
                                        }
                                    }
                                    return Err(NirustError::ArithmeticOverflow);
                                },
                            };
                            proof {
                                lemma_region_tsum_wf(sd, ld, nti, t as int, r as int, s2 as int);
                                lemma_add_step(
                                    s_new@, sums@[t as int]@, q@,
                                    spec_region_tsum(sd, ld, nti, t as int, r as int, s2 as int),
                                    sample_rat(x),
                                );
                                lemma_add_dom(
                                    sums@[t as int]@, q@,
                                    spec_region_tsum_sh(sd, ld, nti, t as int, r as int, s2 as int),
                                    mag_rat(sample_rat(x)),
                                );
                                assert(dominated(
                                    s_new@,
                                    spec_region_tsum_sh(sd, ld, nti, t as int, r as int, s2 as int + 1),
                                ));
                            }
                            sums.set(t, s_new);
                        },
                    }
                }
                t += 1;
            }
        }
        s2 += 1;
    }

    // Assemble the row of means.
    let ghost nspi = nsp as int;
    let ghost cnt = spec_region_count(ld, r as int, nspi);
    let cr = Ratio::from_i128(count as i128);
    let mut row: Vec<Sample> = Vec::new();
    let mut t3: usize = 0;
    while t3 < nt
        invariant
            signal.wf(),
            signal.nt == nt,
            ld == labels.data@,
            sd == signal.data@,
            sd.len() == (nsp as int) * nti,
            nspi == nsp as int,
            nsp == ld.len(),
            nti == nt as int,
            nt >= 1,
            cnt == spec_region_count(ld, r as int, nspi),
            cnt > 0,
            cr.wf(),
            cr@ == rat_of_int(cnt),
            t3 <= nt,
            sums@.len() == nt,
            undefs@.len() == nt,
            forall|u: int| 0 <= u < nti ==> (#[trigger] undefs@[u])
                == spec_region_tundef(sd, ld, nti, u, r as int, nspi),
            forall|u: int| 0 <= u < nti && !undefs@[u] ==> (#[trigger] sums@[u]).wf()
                && rat_eqv(sums@[u]@, spec_region_tsum(sd, ld, nti, u, r as int, nspi))
                && dominated(sums@[u]@, spec_region_tsum_sh(sd, ld, nti, u, r as int, nspi)),
            row@.len() == t3,
            forall|u: int| 0 <= u < t3 as int ==> mean_matches(
                #[trigger] row@[u],
                spec_region_tsum(sd, ld, nti, u, r as int, nspi),
                cnt,
                spec_region_tundef(sd, ld, nti, u, r as int, nspi),
            ),
        decreases nt - t3,
    {
        if undefs[t3] {
            row.push(Sample::Undefined);
        } else {
            let m = match sums[t3].div(cr) {
                Some(v) => v,
                None => {
                    proof {
                        if spec_region_fits(sd, ld, nti, r as int) {
                            assert(div_fits(
                                spec_region_tsum_sh(sd, ld, nti, t3 as int, r as int, ld.len() as int),
                                rat_of_int(spec_region_count(ld, r as int, ld.len() as int)),
                            ));
                            lemma_div_bounds(
                                sums@[t3 as int]@, cr@,
                                spec_region_tsum_sh(sd, ld, nti, t3 as int, r as int, nspi),
                                rat_of_int(cnt),
                            );
                            assert(false);
                        }
                    }
                    return Err(NirustError::ArithmeticOverflow);
                },
            };
            proof {
                lemma_region_tsum_wf(sd, ld, nti, t3 as int, r as int, nspi);
                lemma_div_compat_left(
                    sums@[t3 as int]@,
                    spec_region_tsum(sd, ld, nti, t3 as int, r as int, nspi),
                    cr@,
                );
                lemma_div_wf_pos(sums@[t3 as int]@, cr@);
                lemma_div_wf_pos(spec_region_tsum(sd, ld, nti, t3 as int, r as int, nspi), cr@);
                lemma_eqv_trans(
                    m@,
                    rat_div(sums@[t3 as int]@, cr@),
                    rat_div(spec_region_tsum(sd, ld, nti, t3 as int, r as int, nspi), rat_of_int(cnt)),
                );
            }
            row.push(Sample::Num(m));
        }
        t3 += 1;
    }
    Ok(row)
}

/// Aggregate a signal over a label volume of the signal's own spatial
/// shape: the mean signal per region for a rank-3 signal, the mean time
/// series per region for a rank-4 signal. Regions are `1..=N` with `N`
/// the floored largest label value; label 0 is background and excluded.
/// `EmptyRegion` reports a region with no member voxels; the only other
/// failure is overflow of the exact representation, which
/// [`parcellate_fits`] rules out.
pub fn parcellate_any(signal: &VoxelGrid, labels: &VoxelGrid)
    -> (res: Result<ParcellationResult, NirustError>)
    requires
        signal.wf(),
        labels.wf(),
        !labels.four_d,
        labels.same_spatial(*signal),
    ensures
        res matches Ok(p) ==> parc_result_ok(p, *signal, *labels),
        res == Err::<ParcellationResult, NirustError>(NirustError::EmptyRegion)
            ==> exists|r: int| 1 <= r
                <= spec_n_regions(labels.data@, labels.data@.len() as int)
                && #[trigger] spec_region_count(
                    labels.data@, r, labels.data@.len() as int) == 0,
        res matches Err(e) ==> e == NirustError::EmptyRegion
            || e == NirustError::ArithmeticOverflow,
        parcellate_fits(*signal, *labels) ==> res is Ok,
{
    let n = match find_max_val(labels) {
        Ok(v) => v,
        Err(e) => return Err(e),
    };
    let ghost nspi = labels.data@.len() as int;
    let mut rows: Vec<Vec<Sample>> = Vec::new();
    let mut r: usize = 1;
    while r <= n
        invariant
            signal.wf(),
            labels.wf(),
            !labels.four_d,
            labels.same_spatial(*signal),
            n as int == spec_n_regions(labels.data@, nspi),
            n as int <= 0x7fff_ffff,
            nspi == labels.data@.len() as int,
            1 <= r,
            r <= n + 1,
            rows@.len() == r - 1,
            forall|rr: int| 1 <= rr < r as int ==>
                spec_region_count(labels.data@, rr, nspi) > 0,
            forall|rr: int| 1 <= rr < r as int ==>
                (#[trigger] rows@[rr - 1])@.len() == signal.nt,
            forall|rr: int, t: int| 1 <= rr < r as int && 0 <= t < signal.nt ==>
                mean_matches(
                    rows@[rr - 1]@[t],
                    #[trigger] spec_region_tsum(signal.data@, labels.data@, signal.nt as int, t, rr, nspi),
                    spec_region_count(labels.data@, rr, nspi),
                    spec_region_tundef(signal.data@, labels.data@, signal.nt as int, t, rr, nspi),
                ),
        decreases n + 1 - r,
    {
        let row = match region_row(signal, labels, r) {
            Ok(v) => v,
            Err(e) => {
                proof {
                    if parcellate_fits(*signal, *labels) {
                        assert(spec_region_fits(
                            signal.data@, labels.data@, signal.nt as int, r as int)
                            && spec_region_count(labels.data@, r as int, nspi) != 0);
                        assert(false);
                    }
                }
                return Err(e);
            },
        };
        rows.push(row);
        r += 1;
    }
    if signal.four_d {
        Ok(ParcellationResult::Series(rows))
    } else {
        let mut means: Vec<Sample> = Vec::new();
        let mut r2: usize = 0;
        while r2 < n
            invariant
                signal.wf(),
                labels.wf(),
                !signal.four_d,
                n as int == spec_n_regions(labels.data@, nspi),
                nspi == labels.data@.len() as int,
                r2 <= n,
                rows@.len() == n,
                forall|rr: int| 1 <= rr <= n as int ==>
                    spec_region_count(labels.data@, rr, nspi) > 0,
                forall|rr: int| 1 <= rr <= n as int ==>
                    (#[trigger] rows@[rr - 1])@.len() == signal.nt,
                forall|rr: int, t: int| 1 <= rr <= n as int && 0 <= t < signal.nt ==>
                    mean_matches(
                        rows@[rr - 1]@[t],
                        #[trigger] spec_region_tsum(signal.data@, labels.data@, signal.nt as int, t, rr, nspi),
                        spec_region_count(labels.data@, rr, nspi),
                        spec_region_tundef(signal.data@, labels.data@, signal.nt as int, t, rr, nspi),
                    ),
                means@.len() == r2,
                forall|rr: int| 1 <= rr <= r2 as int ==> mean_matches(
                    #[trigger] means@[rr - 1],
                    spec_region_tsum(signal.data@, labels.data@, signal.nt as int, 0, rr, nspi),
                    spec_region_count(labels.data@, rr, nspi),
                    spec_region_tundef(signal.data@, labels.data@, signal.nt as int, 0, rr, nspi),
                ),
            decreases n - r2,
        {
            proof {
                assert(rows@[(r2 as int + 1) - 1]@.len() == signal.nt);
            }
            let one = &rows[r2];
            let v = one[0];
            means.push(v);
            r2 += 1;
        }
        Ok(ParcellationResult::Means(means))
    }
}

/// Aggregate a signal over a label volume, resampling the labels onto the
/// signal's grid first when the spatial shapes differ (the caller may
/// want to log that this happened).
///
/// Fails with `SingularMatrix` exactly from that resampling, when the
/// label affine cannot be inverted; with `EmptyRegion` when a region of
/// the label volume in use has no member voxels; and with
/// `ArithmeticOverflow` when a value leaves the exact representation.
/// When the shapes already match and [`parcellate_fits`] holds, the
/// result is owed.
pub fn parcellate(
    signal: &VoxelGrid,
    signal_affine: &AffineMatrix,
    labels: &VoxelGrid,
    label_affine: &AffineMatrix,
) -> (res: Result<ParcellationResult, NirustError>)
    requires
        signal.wf(),
        labels.wf(),
        !labels.four_d,
        signal_affine.wf(),
        label_affine.wf(),
    ensures
        res matches Ok(p) ==> exists|lg: VoxelGrid| lg.wf() && !lg.four_d
            && lg.same_spatial(*signal)
            && #[trigger] parc_result_ok(p, *signal, lg)
            && used_labels_ok(lg, *labels, *label_affine, *signal_affine, *signal),
        res == Err::<ParcellationResult, NirustError>(NirustError::SingularMatrix)
            ==> !labels.same_spatial(*signal)
                && rat_eqv(spec_det3(*label_affine), rat_of_int(0)),
        res == Err::<ParcellationResult, NirustError>(NirustError::EmptyRegion)
            ==> exists|lg: VoxelGrid| lg.wf() && !lg.four_d
                && lg.same_spatial(*signal)
                && #[trigger] used_labels_ok(lg, *labels, *label_affine, *signal_affine, *signal)
                && (exists|r: int| 1 <= r <= spec_n_regions(lg.data@, lg.data@.len() as int)
                    && #[trigger] spec_region_count(lg.data@, r, lg.data@.len() as int) == 0),
        res matches Err(e) ==> e == NirustError::SingularMatrix
            || e == NirustError::EmptyRegion
            || e == NirustError::ArithmeticOverflow,
        labels.same_spatial(*signal) && parcellate_fits(*signal, *labels) ==> res is Ok,
{
    if labels.nx == signal.nx && labels.ny == signal.ny && labels.nz == signal.nz {
        let p = match parcellate_any(signal, labels) {
            Ok(v) => v,
            Err(e) => {
                proof {
                    if e == NirustError::EmptyRegion {
                        assert(used_labels_ok(
                            *labels, *labels, *label_affine, *signal_affine, *signal,
                        ));
                    }
                }
                return Err(e);
            },
        };
        proof {
            assert(parc_result_ok(p, *signal, *labels)
                && used_labels_ok(*labels, *labels, *label_affine, *signal_affine, *signal));
        }
        Ok(p)
    } else {
        let lg = match resample_3d_nifti(
            labels, label_affine, signal_affine, signal.nx, signal.ny, signal.nz,
        ) {
            Ok(g) => g,
            Err(e) => return Err(e),
        };
        let p = match parcellate_any(signal, &lg) {
            Ok(v) => v,
            Err(e) => {
                proof {
                    if e == NirustError::EmptyRegion {
                        assert(used_labels_ok(
                            lg, *labels, *label_affine, *signal_affine, *signal,
                        ));
                    }
                }
                return Err(e);
            },
        };
        proof {
            assert(parc_result_ok(p, *signal, lg)
                && used_labels_ok(lg, *labels, *label_affine, *signal_affine, *signal));
        }
        Ok(p)
    }
}

} // verus!
