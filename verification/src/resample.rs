use vstd::prelude::*;

use crate::affine::{
    apply_row, apply_row_sh, det_fits, dot4_fits, invert, is_inverse, lemma_apply_row_wf,
    lemma_dot4_compat_left, lemma_dot4_unit, lemma_dot4_wf, lemma_mm_ent_wf, mat_mul,
    spec_apply_row, spec_det3, spec_dot4, spec_mm_ent, AffineMatrix,
};
use crate::error::NirustError;
use crate::grid::{sample_wf, Sample, VoxelGrid};
use crate::ratio::{
    lemma_round_bounds, lemma_round_eqv, lemma_round_int, rat_eqv, rat_of_int, rat_round,
    round_fits, Rat, Ratio,
};

verus! {

/// Clamp an integer into `[0, dim - 1]`: indices computed outside the
/// source volume are pulled to the nearest edge voxel, so resampling never
/// introduces missing data at borders.
pub open spec fn spec_clamp(v: int, dim: int) -> int {
    if v < 0 {
        0
    } else if v >= dim {
        dim - 1
    } else {
        v
    }
}

/// The source index along axis `r` that target voxel `(i, j, k)` samples
/// under the map `m` from target indices to continuous source coordinates:
/// the coordinate rounded to the nearest integer (ties up), clamped into
/// the source extent `dim`.
pub open spec fn spec_src_axis(m: AffineMatrix, r: int, i: int, j: int, k: int, dim: int) -> int {
    spec_clamp(
        rat_round(spec_apply_row(m, r, rat_of_int(i), rat_of_int(j), rat_of_int(k))),
        dim,
    )
}

/// `out` holds, at every voxel, the source sample selected through the
/// index map `m`.
pub open spec fn resampled_via(out: VoxelGrid, source: VoxelGrid, m: AffineMatrix) -> bool {
    forall|i: int, j: int, k: int| out.in_bounds(i, j, k, 0) ==>
        #[trigger] out.at3(i, j, k) == source.at3(
            spec_src_axis(m, 0, i, j, k, source.nx as int),
            spec_src_axis(m, 1, i, j, k, source.ny as int),
            spec_src_axis(m, 2, i, j, k, source.nz as int),
        )
}

/// Component `r` of the composition `b * t` applied to the integer point
/// `(i, j, k)`: the continuous source coordinate of a target voxel, with
/// `t` the target affine and `b` an inverse of the source affine.
pub open spec fn spec_compose_axis(
    b: AffineMatrix, t: AffineMatrix, r: int, i: int, j: int, k: int,
) -> Rat {
    spec_dot4(
        spec_mm_ent(b, t, r, 0), spec_mm_ent(b, t, r, 1),
        spec_mm_ent(b, t, r, 2), spec_mm_ent(b, t, r, 3),
        rat_of_int(i), rat_of_int(j), rat_of_int(k), rat_of_int(1),
    )
}

/// `out` is `source` resampled onto a target grid whose affine is `t`,
/// with `b` inverting the source affine: every output voxel carries the
/// source sample nearest (rounded, clamped) to its world position.
pub open spec fn resampled_composed(
    out: VoxelGrid, source: VoxelGrid, b: AffineMatrix, t: AffineMatrix,
) -> bool {
    forall|i: int, j: int, k: int| out.in_bounds(i, j, k, 0) ==>
        #[trigger] out.at3(i, j, k) == source.at3(
            spec_clamp(rat_round(spec_compose_axis(b, t, 0, i, j, k)), source.nx as int),
            spec_clamp(rat_round(spec_compose_axis(b, t, 1, i, j, k)), source.ny as int),
            spec_clamp(rat_round(spec_compose_axis(b, t, 2, i, j, k)), source.nz as int),
        )
}

/// The bounds under which the mapped source coordinate of one target
/// voxel is owed along axis `r`: the coordinate's inner product fits,
/// and the result's shadow can be rounded.
pub open spec fn src_axis_fits(m: AffineMatrix, r: int, i: int, j: int, k: int) -> bool {
    &&& dot4_fits(
        m.ent(r, 0), m.ent(r, 1), m.ent(r, 2), m.ent(r, 3),
        rat_of_int(i), rat_of_int(j), rat_of_int(k), rat_of_int(1),
    )
    &&& round_fits(apply_row_sh(m, r, rat_of_int(i), rat_of_int(j), rat_of_int(k)))
}

/// All three axes of one target voxel's source lookup stay representable.
pub open spec fn voxel_map_fits(m: AffineMatrix, i: int, j: int, k: int) -> bool {
    src_axis_fits(m, 0, i, j, k) && src_axis_fits(m, 1, i, j, k) && src_axis_fits(m, 2, i, j, k)
}

/// Clamp a computed index into the valid range of an axis.
fn clamp_idx(v: i128, dim: usize) -> (r: usize)
    requires
        dim >= 1,
    ensures
        r as int == spec_clamp(v as int, dim as int),
        r < dim,
{
    if v < 0 {
        0
    } else if v >= dim as i128 {
        dim - 1
    } else {
        v as usize
    }
}

/// The clamped nearest source index for one target voxel; `None` on
/// overflow of the exact representation.
fn src_index(source: &VoxelGrid, m: &AffineMatrix, i: usize, j: usize, k: usize)
    -> (r: Option<(usize, usize, usize)>)
    requires
        source.wf(),
        m.wf(),
    ensures
        r matches Some(s) ==> {
            &&& s.0 as int == spec_src_axis(*m, 0, i as int, j as int, k as int, source.nx as int)
            &&& s.1 as int == spec_src_axis(*m, 1, i as int, j as int, k as int, source.ny as int)
            &&& s.2 as int == spec_src_axis(*m, 2, i as int, j as int, k as int, source.nz as int)
            &&& s.0 < source.nx
            &&& s.1 < source.ny
            &&& s.2 < source.nz
        },
        voxel_map_fits(*m, i as int, j as int, k as int) ==> r is Some,
{
    let xi = Ratio::from_i128(i as i128);
    let yj = Ratio::from_i128(j as i128);
    let zk = Ratio::from_i128(k as i128);
    let w0 = match apply_row(m, 0, xi, yj, zk) { Some(v) => v, None => return None };
    let w1 = match apply_row(m, 1, xi, yj, zk) { Some(v) => v, None => return None };
    let w2 = match apply_row(m, 2, xi, yj, zk) { Some(v) => v, None => return None };
    let r0 = match w0.round() {
        Some(v) => v,
        None => {
            proof {
                if voxel_map_fits(*m, i as int, j as int, k as int) {
                    lemma_round_bounds(
                        w0@, apply_row_sh(*m, 0, rat_of_int(i as int), rat_of_int(j as int), rat_of_int(k as int)),
                    );
                    assert(false);
                }
            }
            return None;
        },
    };
    let r1 = match w1.round() {
        Some(v) => v,
        None => {
            proof {
                if voxel_map_fits(*m, i as int, j as int, k as int) {
                    lemma_round_bounds(
                        w1@, apply_row_sh(*m, 1, rat_of_int(i as int), rat_of_int(j as int), rat_of_int(k as int)),
                    );
                    assert(false);
                }
            }
            return None;
        },
    };
    let r2 = match w2.round() {
        Some(v) => v,
        None => {
            proof {
                if voxel_map_fits(*m, i as int, j as int, k as int) {
                    lemma_round_bounds(
                        w2@, apply_row_sh(*m, 2, rat_of_int(i as int), rat_of_int(j as int), rat_of_int(k as int)),
                    );
                    assert(false);
                }
            }
            return None;
        },
    };
    proof {
        lemma_apply_row_wf(*m, 0, xi@, yj@, zk@);
        lemma_apply_row_wf(*m, 1, xi@, yj@, zk@);
        lemma_apply_row_wf(*m, 2, xi@, yj@, zk@);
        lemma_round_eqv(w0@, spec_apply_row(*m, 0, xi@, yj@, zk@));
        lemma_round_eqv(w1@, spec_apply_row(*m, 1, xi@, yj@, zk@));
        lemma_round_eqv(w2@, spec_apply_row(*m, 2, xi@, yj@, zk@));
    }
    Some((clamp_idx(r0, source.nx), clamp_idx(r1, source.ny), clamp_idx(r2, source.nz)))
}

/// Resample a rank-3 grid through an explicit index map.
///
/// `map` sends a target voxel index to a continuous source voxel
/// coordinate; each output voxel receives the source sample at that
/// coordinate rounded to the nearest index (ties up) and clamped into the
/// source extents. The only failure is overflow of the exact
/// representation, which [`voxel_map_fits`] at every target index rules
/// out.
pub fn resample_onto(source: &VoxelGrid, map: &AffineMatrix, tx: usize, ty: usize, tz: usize)
    -> (res: Result<VoxelGrid, NirustError>)
    requires
        source.wf(),
        !source.four_d,
        map.wf(),
        tx >= 1,
        ty >= 1,
        tz >= 1,
    ensures
        res matches Ok(out) ==> out.wf() && !out.four_d && out.nx == tx && out.ny == ty
            && out.nz == tz && out.nt == 1 && resampled_via(out, *source, *map),
        res matches Err(e) ==> e == NirustError::ArithmeticOverflow,
        (forall|i: int, j: int, k: int| 0 <= i < tx && 0 <= j < ty && 0 <= k < tz ==>
            #[trigger] voxel_map_fits(*map, i, j, k)) ==> res is Ok,
{
    let mut data: Vec<Sample> = Vec::new();
    let mut i: usize = 0;
    while i < tx
        invariant
            source.wf(),
            !source.four_d,
            map.wf(),
            i <= tx,
            data@.len() == i * ((ty * tz) as int),
            forall|f: int| 0 <= f < data@.len() ==> sample_wf(#[trigger] data@[f]),
            forall|a: int, b: int, c: int| 0 <= a < i && 0 <= b < ty && 0 <= c < tz ==>
                #[trigger] data@[(a * ty + b) * tz + c] == source.at3(
                    spec_src_axis(*map, 0, a, b, c, source.nx as int),
                    spec_src_axis(*map, 1, a, b, c, source.ny as int),
                    spec_src_axis(*map, 2, a, b, c, source.nz as int),
                ),
        decreases tx - i,
    {
        let mut j: usize = 0;
        while j < ty
            invariant
                source.wf(),
                !source.four_d,
                map.wf(),
                i < tx,
                j <= ty,
                data@.len() == i * ((ty * tz) as int) + j * (tz as int),
                forall|f: int| 0 <= f < data@.len() ==> sample_wf(#[trigger] data@[f]),
                forall|a: int, b: int, c: int| 0 <= a < i && 0 <= b < ty && 0 <= c < tz ==>
                    #[trigger] data@[(a * ty + b) * tz + c] == source.at3(
                        spec_src_axis(*map, 0, a, b, c, source.nx as int),
                        spec_src_axis(*map, 1, a, b, c, source.ny as int),
                        spec_src_axis(*map, 2, a, b, c, source.nz as int),
                    ),
                forall|b: int, c: int| 0 <= b < j && 0 <= c < tz ==>
                    #[trigger] data@[(i * ty + b) * tz + c] == source.at3(
                        spec_src_axis(*map, 0, i as int, b, c, source.nx as int),
                        spec_src_axis(*map, 1, i as int, b, c, source.ny as int),
                        spec_src_axis(*map, 2, i as int, b, c, source.nz as int),
                    ),
            decreases ty - j,
        {
            let mut k: usize = 0;
            while k < tz
                invariant
                    source.wf(),
                    !source.four_d,
                    map.wf(),
                    i < tx,
                    j < ty,
                    k <= tz,
                    data@.len() == i * ((ty * tz) as int) + j * (tz as int) + k,
                    forall|f: int| 0 <= f < data@.len() ==> sample_wf(#[trigger] data@[f]),
                    forall|a: int, b: int, c: int| 0 <= a < i && 0 <= b < ty && 0 <= c < tz ==>
                        #[trigger] data@[(a * ty + b) * tz + c] == source.at3(
                            spec_src_axis(*map, 0, a, b, c, source.nx as int),
                            spec_src_axis(*map, 1, a, b, c, source.ny as int),
                            spec_src_axis(*map, 2, a, b, c, source.nz as int),
                        ),
                    forall|b: int, c: int| 0 <= b < j && 0 <= c < tz ==>
                        #[trigger] data@[(i * ty + b) * tz + c] == source.at3(
                            spec_src_axis(*map, 0, i as int, b, c, source.nx as int),
                            spec_src_axis(*map, 1, i as int, b, c, source.ny as int),
                            spec_src_axis(*map, 2, i as int, b, c, source.nz as int),
                        ),
                    forall|c: int| 0 <= c < k ==>
                        #[trigger] data@[(i * ty + j) * tz + c] == source.at3(
                            spec_src_axis(*map, 0, i as int, j as int, c, source.nx as int),
                            spec_src_axis(*map, 1, i as int, j as int, c, source.ny as int),
                            spec_src_axis(*map, 2, i as int, j as int, c, source.nz as int),
                        ),
                decreases tz - k,
            {
                let s = match src_index(source, map, i, j, k) {
                    Some(v) => v,
                    None => {
                        proof {
                            assert(!voxel_map_fits(*map, i as int, j as int, k as int));
                        }
                        return Err(NirustError::ArithmeticOverflow);
                    },
                };
                let v = source.get3(s.0, s.1, s.2);
                proof {
                    assert(((i as int) * (ty as int) + (j as int)) * (tz as int) + (k as int)
                        == (i as int) * ((ty as int) * (tz as int))
                            + (j as int) * (tz as int) + (k as int)) by (nonlinear_arith);
                }
                data.push(v);
                proof {
                    let ii = i as int;
                    let jj = j as int;
                    let kk = k as int;
                    let tyi = ty as int;
                    let tzi = tz as int;
                    let prev: int = ii * (tyi * tzi) + jj * tzi + kk;
                    assert forall|a: int, b: int, c: int|
                        0 <= a < ii && 0 <= b < tyi && 0 <= c < tzi implies
                        #[trigger] data@[(a * ty + b) * tz + c] == source.at3(
                            spec_src_axis(*map, 0, a, b, c, source.nx as int),
                            spec_src_axis(*map, 1, a, b, c, source.ny as int),
                            spec_src_axis(*map, 2, a, b, c, source.nz as int),
                        ) by {
                        assert(0 <= (a * tyi + b) * tzi + c < prev) by (nonlinear_arith)
                            requires
                                0 <= a < ii,
                                0 <= b < tyi,
                                0 <= c < tzi,
                                0 <= jj,
                                0 <= kk,
                                prev == ii * (tyi * tzi) + jj * tzi + kk;
                    }
                    assert forall|b: int, c: int| 0 <= b < jj && 0 <= c < tzi implies
                        #[trigger] data@[(i * ty + b) * tz + c] == source.at3(
                            spec_src_axis(*map, 0, ii, b, c, source.nx as int),
                            spec_src_axis(*map, 1, ii, b, c, source.ny as int),
                            spec_src_axis(*map, 2, ii, b, c, source.nz as int),
                        ) by {
                        assert(0 <= (ii * tyi + b) * tzi + c < prev) by (nonlinear_arith)
                            requires
                                0 <= b < jj,
                                0 <= c < tzi,
                                0 <= ii,
                                0 <= tyi,
                                0 <= kk,
                                prev == ii * (tyi * tzi) + jj * tzi + kk;
                    }
                    assert forall|c: int| 0 <= c < kk + 1 implies
                        #[trigger] data@[(i * ty + j) * tz + c] == source.at3(
                            spec_src_axis(*map, 0, ii, jj, c, source.nx as int),
                            spec_src_axis(*map, 1, ii, jj, c, source.ny as int),
                            spec_src_axis(*map, 2, ii, jj, c, source.nz as int),
                        ) by {
                        assert((ii * tyi + jj) * tzi + c == ii * (tyi * tzi) + jj * tzi + c)
                            by (nonlinear_arith);
                    }
                }
                k += 1;
            }
            proof {
                assert(((j as int) + 1) * (tz as int) == (j as int) * (tz as int) + (tz as int))
                    by (nonlinear_arith);
            }
            j += 1;
        }
        proof {
            assert(((i as int) + 1) * ((ty as int) * (tz as int))
                == (i as int) * ((ty as int) * (tz as int)) + (ty as int) * (tz as int))
                by (nonlinear_arith);
        }
        i += 1;
    }
    let out = VoxelGrid { nx: tx, ny: ty, nz: tz, nt: 1, four_d: false, data };
    proof {
        assert((tx as int) * ((ty as int) * (tz as int))
            == (tx as int) * (ty as int) * (tz as int) * 1) by (nonlinear_arith);
        assert forall|a: int, b: int, c: int| out.in_bounds(a, b, c, 0) implies
            #[trigger] out.at3(a, b, c) == source.at3(
                spec_src_axis(*map, 0, a, b, c, source.nx as int),
                spec_src_axis(*map, 1, a, b, c, source.ny as int),
                spec_src_axis(*map, 2, a, b, c, source.nz as int),
            ) by {
            assert(out.flat(a, b, c, 0) == (a * ty + b) * tz + c) by (nonlinear_arith)
                requires
                    out.flat(a, b, c, 0) == ((a * out.ny + b) * out.nz + c) * out.nt + 0,
                    out.ny == ty as int,
                    out.nz == tz as int,
                    out.nt == 1;
        }
    }
    Ok(out)
}

/// Resample a rank-3 grid onto another grid's coordinate frame.
///
/// Each target voxel `(i, j, k)` of the `tx * ty * tz` output is carried to
/// world space by `target_affine` and back into source voxel space by the
/// inverse of `source_affine`; the output voxel receives the source sample
/// at the resulting coordinate, rounded to the nearest index (ties up) and
/// clamped into the source extents. Fails with `SingularMatrix` when the
/// source affine cannot be inverted (its determinant is zero) — an
/// outcome owed under [`det_fits`] — and with `ArithmeticOverflow` only
/// when a value leaves the exact representation. Success itself is not
/// owed here, because the inverse's correctness rests on [`invert`]'s
/// runtime product check; [`resample_onto`], which takes the composed
/// map directly, owes success under [`voxel_map_fits`].
pub fn resample_3d_nifti(
    source: &VoxelGrid,
    source_affine: &AffineMatrix,
    target_affine: &AffineMatrix,
    tx: usize, ty: usize, tz: usize,
) -> (res: Result<VoxelGrid, NirustError>)
    requires
        source.wf(),
        !source.four_d,
        source_affine.wf(),
        target_affine.wf(),
        tx >= 1,
        ty >= 1,
        tz >= 1,
    ensures
        res matches Ok(out) ==> out.wf() && !out.four_d && out.nx == tx && out.ny == ty
            && out.nz == tz && out.nt == 1
            && !rat_eqv(spec_det3(*source_affine), rat_of_int(0))
            && (exists|b: AffineMatrix| b.wf() && is_inverse(b, *source_affine)
                && #[trigger] resampled_composed(out, *source, b, *target_affine)),
        res == Err::<VoxelGrid, NirustError>(NirustError::SingularMatrix)
            ==> rat_eqv(spec_det3(*source_affine), rat_of_int(0)),
        res matches Err(e) ==> e == NirustError::SingularMatrix
            || e == NirustError::ArithmeticOverflow,
        det_fits(*source_affine) && rat_eqv(spec_det3(*source_affine), rat_of_int(0))
            ==> res == Err::<VoxelGrid, NirustError>(NirustError::SingularMatrix),
{
    let binv = match invert(source_affine) {
        Ok(b) => b,
        Err(e) => return Err(e),
    };
    let m = match mat_mul(&binv, target_affine) {
        Some(v) => v,
        None => return Err(NirustError::ArithmeticOverflow),
    };
    let out = match resample_onto(source, &m, tx, ty, tz) {
        Ok(g) => g,
        Err(e) => return Err(e),
    };
    proof {
        assert forall|i: int, j: int, k: int| out.in_bounds(i, j, k, 0) implies
            #[trigger] out.at3(i, j, k) == source.at3(
                spec_clamp(
                    rat_round(spec_compose_axis(binv, *target_affine, 0, i, j, k)),
                    source.nx as int,
                ),
                spec_clamp(
                    rat_round(spec_compose_axis(binv, *target_affine, 1, i, j, k)),
                    source.ny as int,
                ),
                spec_clamp(
                    rat_round(spec_compose_axis(binv, *target_affine, 2, i, j, k)),
                    source.nz as int,
                ),
            ) by {
            assert(out.at3(i, j, k) == source.at3(
                spec_src_axis(m, 0, i, j, k, source.nx as int),
                spec_src_axis(m, 1, i, j, k, source.ny as int),
                spec_src_axis(m, 2, i, j, k, source.nz as int),
            ));
            lemma_axis_round_match(m, binv, *target_affine, 0, i, j, k);
            lemma_axis_round_match(m, binv, *target_affine, 1, i, j, k);
            lemma_axis_round_match(m, binv, *target_affine, 2, i, j, k);
        }
        assert(resampled_composed(out, *source, binv, *target_affine));
    }
    Ok(out)
}

/// Resampling a grid onto its own affine and shape reproduces it
/// exactly: when the target affine equals the source affine, the
/// composed map is the identity as a rational matrix, every rounded and
/// clamped source index equals the output index, and every output voxel
/// carries the source voxel at the same position.
pub proof fn lemma_resample_identity(
    source: VoxelGrid, out: VoxelGrid, b: AffineMatrix, a: AffineMatrix,
)
    requires
        source.wf(),
        !source.four_d,
        out.wf(),
        a.wf(),
        b.wf(),
        is_inverse(b, a),
        out.nx == source.nx,
        out.ny == source.ny,
        out.nz == source.nz,
        out.nt == 1,
        resampled_composed(out, source, b, a),
    ensures
        forall|i: int, j: int, k: int| source.in_bounds(i, j, k, 0) ==>
            #[trigger] out.at3(i, j, k) == source.at3(i, j, k),
{
    assert forall|i: int, j: int, k: int| source.in_bounds(i, j, k, 0) implies
        #[trigger] out.at3(i, j, k) == source.at3(i, j, k) by {
        lemma_compose_axis_id(b, a, 0, i, j, k, i);
        lemma_compose_axis_id(b, a, 1, i, j, k, j);
        lemma_compose_axis_id(b, a, 2, i, j, k, k);
        assert(out.in_bounds(i, j, k, 0));
    }
}

/// When `b` inverts `a`, the composed map fixes integer points: the
/// coordinate along axis `r` of the image of `(i, j, k)` rounds back to
/// that axis's own index `v`.
proof fn lemma_compose_axis_id(
    b: AffineMatrix, a: AffineMatrix, r: int, i: int, j: int, k: int, v: int,
)
    requires
        a.wf(),
        b.wf(),
        is_inverse(b, a),
        0 <= r < 3,
        v == if r == 0 { i } else if r == 1 { j } else { k },
    ensures
        rat_round(spec_compose_axis(b, a, r, i, j, k)) == v,
{
    lemma_mm_ent_wf(b, a, r, 0);
    lemma_mm_ent_wf(b, a, r, 1);
    lemma_mm_ent_wf(b, a, r, 2);
    lemma_mm_ent_wf(b, a, r, 3);
    lemma_dot4_wf(
        spec_mm_ent(b, a, r, 0), spec_mm_ent(b, a, r, 1),
        spec_mm_ent(b, a, r, 2), spec_mm_ent(b, a, r, 3),
        rat_of_int(i), rat_of_int(j), rat_of_int(k), rat_of_int(1),
    );
    lemma_dot4_unit(
        spec_mm_ent(b, a, r, 0), spec_mm_ent(b, a, r, 1),
        spec_mm_ent(b, a, r, 2), spec_mm_ent(b, a, r, 3),
        rat_of_int(i), rat_of_int(j), rat_of_int(k), rat_of_int(1),
        r,
    );
    lemma_round_int(spec_compose_axis(b, a, r, i, j, k), v);
}

/// Clamping law of resampling: an output voxel whose computed source
/// coordinate falls at or beyond the source's extent along the first
/// axis takes the value of the edge voxel on that side — never a blank
/// or a default. The same holds of the other axes by the symmetry of
/// [`resampled_via`].
pub proof fn lemma_resample_clamps_to_edges(
    out: VoxelGrid, source: VoxelGrid, m: AffineMatrix, i: int, j: int, k: int,
)
    requires
        resampled_via(out, source, m),
        out.in_bounds(i, j, k, 0),
        source.nx >= 1,
    ensures
        rat_round(spec_apply_row(m, 0, rat_of_int(i), rat_of_int(j), rat_of_int(k)))
            >= source.nx ==> out.at3(i, j, k) == source.at3(
                source.nx - 1,
                spec_src_axis(m, 1, i, j, k, source.ny as int),
                spec_src_axis(m, 2, i, j, k, source.nz as int),
            ),
        rat_round(spec_apply_row(m, 0, rat_of_int(i), rat_of_int(j), rat_of_int(k)))
            < 0 ==> out.at3(i, j, k) == source.at3(
                0,
                spec_src_axis(m, 1, i, j, k, source.ny as int),
                spec_src_axis(m, 2, i, j, k, source.nz as int),
            ),
{
    assert(out.at3(i, j, k) == source.at3(
        spec_src_axis(m, 0, i, j, k, source.nx as int),
        spec_src_axis(m, 1, i, j, k, source.ny as int),
        spec_src_axis(m, 2, i, j, k, source.nz as int),
    ));
}

/// When a matrix equals, entry by entry, the product of `binv` and `t`,
/// the rounded coordinates it produces agree with those of the product.
proof fn lemma_axis_round_match(
    m: AffineMatrix, binv: AffineMatrix, t: AffineMatrix, r: int, i: int, j: int, k: int,
)
    requires
        m.wf(),
        binv.wf(),
        t.wf(),
        0 <= r < 4,
        forall|rr: int, cc: int| 0 <= rr < 4 && 0 <= cc < 4 ==>
            rat_eqv(#[trigger] m.ent(rr, cc), spec_mm_ent(binv, t, rr, cc)),
    ensures
        rat_round(spec_apply_row(m, r, rat_of_int(i), rat_of_int(j), rat_of_int(k)))
            == rat_round(spec_compose_axis(binv, t, r, i, j, k)),
{
    let x = rat_of_int(i);
    let y = rat_of_int(j);
    let z = rat_of_int(k);
    let o = rat_of_int(1);
    lemma_mm_ent_wf(binv, t, r, 0);
    lemma_mm_ent_wf(binv, t, r, 1);
    lemma_mm_ent_wf(binv, t, r, 2);
    lemma_mm_ent_wf(binv, t, r, 3);
    lemma_apply_row_wf(m, r, x, y, z);
    lemma_dot4_wf(
        spec_mm_ent(binv, t, r, 0), spec_mm_ent(binv, t, r, 1),
        spec_mm_ent(binv, t, r, 2), spec_mm_ent(binv, t, r, 3),
        x, y, z, o,
    );
    lemma_dot4_compat_left(
        m.ent(r, 0), m.ent(r, 1), m.ent(r, 2), m.ent(r, 3),
        spec_mm_ent(binv, t, r, 0), spec_mm_ent(binv, t, r, 1),
        spec_mm_ent(binv, t, r, 2), spec_mm_ent(binv, t, r, 3),
        x, y, z, o,
    );
    lemma_round_eqv(
        spec_apply_row(m, r, x, y, z),
        spec_compose_axis(binv, t, r, i, j, k),
    );
}

} // verus!
