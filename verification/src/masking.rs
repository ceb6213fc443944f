use vstd::prelude::*;

use crate::affine::{apply_row, dot4_fits, lemma_apply_row_wf, spec_apply_row, AffineMatrix};
use crate::error::NirustError;
use crate::grid::{lemma_flat_bounds, lemma_flat_first_axis, sample_wf, Sample, VoxelGrid};
use crate::ratio::{lemma_sign_eqv, rat_is_nonneg, rat_of_int, Ratio};

verus! {

/// The two hemispheres along the first grid axis. "Left" is the side with
/// negative world x-coordinates.
#[derive(Clone, Copy, Debug, PartialEq, Eq, Structural)]
pub enum Side {
    Left,
    Right,
}

/// Parse a hemisphere name. Exactly the strings `"left"` and `"right"`
/// are legal; anything else is an `InvalidArgument` error, raised before
/// any computation begins.
pub fn parse_side(side: &String) -> (r: Result<Side, NirustError>)
    ensures
        r == Ok::<Side, NirustError>(Side::Left) <==> side@ == "left"@,
        r == Ok::<Side, NirustError>(Side::Right) <==> side@ == "right"@,
        r == Err::<Side, NirustError>(NirustError::InvalidArgument)
            <==> (side@ != "left"@ && side@ != "right"@),
{
    proof {
        reveal_strlit("left");
        reveal_strlit("right");
        assert("left"@.len() == 4);
        assert("right"@.len() == 5);
        assert("left"@ != "right"@);
    }
    let l: String = "left".to_owned();
    let rg: String = "right".to_owned();
    if *side == l {
        Ok(Side::Left)
    } else if *side == rg {
        Ok(Side::Right)
    } else {
        Err(NirustError::InvalidArgument)
    }
}

/// The world x-coordinate of the voxel index `(i, 0, 0)`.
pub open spec fn spec_world_x0(a: AffineMatrix, i: int) -> crate::ratio::Rat {
    spec_apply_row(a, 0, rat_of_int(i), rat_of_int(0), rat_of_int(0))
}

/// The bound under which the midline scan cannot overflow at index
/// `i`: [`dot4_fits`] for the affine's x-row applied to `(i, 0, 0)`.
/// When it holds of every index below the axis length, the scan — and
/// the masking built on it — is owed a result.
pub open spec fn scan_fits(a: AffineMatrix, i: int) -> bool {
    dot4_fits(
        a.ent(0, 0), a.ent(0, 1), a.ent(0, 2), a.ent(0, 3),
        rat_of_int(i), rat_of_int(0), rat_of_int(0), rat_of_int(1),
    )
}

/// The least index at or after `i` (and below `nx`) whose world
/// x-coordinate is non-negative; `nx` when there is none.
pub open spec fn spec_x_origin_from(a: AffineMatrix, nx: int, i: int) -> int
    decreases nx - i,
{
    if i >= nx {
        nx
    } else if rat_is_nonneg(spec_world_x0(a, i)) {
        i
    } else {
        spec_x_origin_from(a, nx, i + 1)
    }
}

/// The voxel index along the first axis that straddles the physical
/// left/right midline: the smallest `i` whose world x-coordinate is at or
/// above zero, or the axis length when no index qualifies.
pub open spec fn spec_x_origin(a: AffineMatrix, nx: int) -> int {
    spec_x_origin_from(a, nx, 0)
}

/// Scan the first axis for the midline index. Returns `n_x` itself when
/// the whole axis lies left of the midline — a degenerate case the caller
/// may want to warn about, not a failure. The only error is overflow of
/// the exact representation, which [`scan_fits`] at every index rules
/// out.
pub fn find_x_origin(n_x: usize, affine: &AffineMatrix) -> (r: Result<usize, NirustError>)
    requires
        affine.wf(),
    ensures
        r matches Ok(v) ==> v as int == spec_x_origin(*affine, n_x as int) && v <= n_x,
        r matches Err(e) ==> e == NirustError::ArithmeticOverflow,
        (forall|i: int| 0 <= i < n_x as int ==> #[trigger] scan_fits(*affine, i)) ==> r is Ok,
{
    let mut i: usize = 0;
    while i < n_x
        invariant
            affine.wf(),
            i <= n_x,
            spec_x_origin(*affine, n_x as int) == spec_x_origin_from(*affine, n_x as int, i as int),
        decreases n_x - i,
    {
        let w = match apply_row(affine, 0, Ratio::from_i128(i as i128), Ratio::zero(), Ratio::zero()) {
            Some(v) => v,
            None => {
                proof {
                    assert(!scan_fits(*affine, i as int));
                }
                return Err(NirustError::ArithmeticOverflow);
            },
        };
        proof {
            lemma_apply_row_wf(*affine, 0, rat_of_int(i as int), rat_of_int(0), rat_of_int(0));
            lemma_sign_eqv(w@, spec_world_x0(*affine, i as int));
        }
        if w.is_nonneg() {
            return Ok(i);
        }
        i += 1;
    }
    Ok(n_x)
}

/// Whether first-axis index `i` belongs to the blanked region for `side`,
/// given the midline index `x0`: the left mask covers `[0, x0)`, the right
/// mask covers `[x0, nx)`.
pub open spec fn side_masks(side: Side, i: int, x0: int) -> bool {
    match side {
        Side::Left => i < x0,
        Side::Right => i >= x0,
    }
}

/// `out` is `orig` with the `side` hemisphere blanked at midline `x0`:
/// same extents, every voxel in the blanked slab `Undefined`, every other
/// voxel untouched.
pub open spec fn hemi_masked(out: VoxelGrid, orig: VoxelGrid, side: Side, x0: int) -> bool {
    &&& out.nx == orig.nx
    &&& out.ny == orig.ny
    &&& out.nz == orig.nz
    &&& out.nt == orig.nt
    &&& out.four_d == orig.four_d
    &&& forall|i: int, j: int, k: int, t: int| orig.in_bounds(i, j, k, t) ==>
        #[trigger] out.at(i, j, k, t) == (if side_masks(side, i, x0) {
            Sample::Undefined
        } else {
            orig.at(i, j, k, t)
        })
}

/// Blank one hemisphere of a grid in place.
///
/// The midline index is found by scanning the first axis for the first
/// voxel with a non-negative world x-coordinate; the left mask blanks all
/// first-axis indices below it, the right mask all indices at or above it,
/// across every remaining axis of a rank-3 or rank-4 grid. On success the
/// midline index is returned (equal to the axis length when no midline was
/// found — worth a caller-side warning). On overflow of the exact
/// representation the grid is left untouched; [`scan_fits`] at every
/// first-axis index rules that overflow out, so under it the mask is
/// owed.
pub fn mask_hemi(affine: &AffineMatrix, grid: &mut VoxelGrid, side: Side)
    -> (r: Result<usize, NirustError>)
    requires
        old(grid).wf(),
        affine.wf(),
    ensures
        r matches Ok(x0) ==> x0 as int == spec_x_origin(*affine, old(grid).nx as int)
            && x0 <= old(grid).nx
            && final(grid).wf()
            && hemi_masked(*final(grid), *old(grid), side, x0 as int),
        r matches Err(e) ==> e == NirustError::ArithmeticOverflow
            && *final(grid) == *old(grid),
        (forall|i: int| 0 <= i < old(grid).nx as int ==> #[trigger] scan_fits(*affine, i))
            ==> r is Ok,
{
    let x0 = match find_x_origin(grid.nx, affine) {
        Ok(v) => v,
        Err(e) => return Err(e),
    };
    let len = grid.data.len();
    proof {
        assert((grid.ny as int) * (grid.nz as int) <= grid.data@.len()
            && (grid.ny as int) * (grid.nz as int) * (grid.nt as int) <= grid.data@.len()
            && (grid.ny as int) * (grid.nz as int) * (grid.nt as int) >= 1) by (nonlinear_arith)
            requires
                grid.data@.len() == (grid.nx as int) * (grid.ny as int) * (grid.nz as int)
                    * (grid.nt as int),
                grid.nx as int >= 1,
                grid.ny as int >= 1,
                grid.nz as int >= 1,
                grid.nt as int >= 1;
        assert(grid.data@.len() <= usize::MAX);
    }
    let slab = grid.ny * grid.nz * grid.nt;
    let mut f: usize = 0;
    while f < len
        invariant
            old(grid).wf(),
            grid.nx == old(grid).nx,
            grid.ny == old(grid).ny,
            grid.nz == old(grid).nz,
            grid.nt == old(grid).nt,
            grid.four_d == old(grid).four_d,
            grid.data@.len() == old(grid).data@.len(),
            len == grid.data@.len(),
            slab as int == (grid.ny as int) * (grid.nz as int) * (grid.nt as int),
            slab >= 1,
            f <= len,
            forall|t: int| 0 <= t < f ==> #[trigger] grid.data@[t]
                == (if side_masks(side, t / (slab as int), x0 as int) {
                    Sample::Undefined
                } else {
                    old(grid).data@[t]
                }),
            forall|t: int| f <= t < len ==> #[trigger] grid.data@[t] == old(grid).data@[t],
        decreases len - f,
    {
        let ia = f / slab;
        let cond = match side {
            Side::Left => ia < x0,
            Side::Right => ia >= x0,
        };
        if cond {
            grid.data.set(f, Sample::Undefined);
        }
        f += 1;
    }
    proof {
        assert forall|t: int| 0 <= t < grid.data@.len() implies
            sample_wf(#[trigger] grid.data@[t]) by {
            assert(sample_wf(old(grid).data@[t]));
        }
        assert forall|i: int, j: int, k: int, t: int| old(grid).in_bounds(i, j, k, t) implies
            #[trigger] grid.at(i, j, k, t) == (if side_masks(side, i, x0 as int) {
                Sample::Undefined
            } else {
                old(grid).at(i, j, k, t)
            }) by {
            lemma_flat_bounds(*old(grid), i, j, k, t);
            lemma_flat_first_axis(*old(grid), i, j, k, t);
            assert(grid.flat(i, j, k, t) == old(grid).flat(i, j, k, t));
        }
    }
    Ok(x0)
}

/// The two hemisphere masks of one grid partition it: every voxel is
/// blanked by at least one of them, a voxel that carried a value is never
/// blanked by both, and along the first axis the two blanked regions are
/// complementary — no overlap and no gap at the midline.
pub proof fn lemma_hemisphere_masks_partition(
    orig: VoxelGrid, gl: VoxelGrid, gr: VoxelGrid, x0: int,
)
    requires
        hemi_masked(gl, orig, Side::Left, x0),
        hemi_masked(gr, orig, Side::Right, x0),
    ensures
        forall|i: int| side_masks(Side::Left, i, x0) <==> !side_masks(Side::Right, i, x0),
        forall|i: int, j: int, k: int, t: int| orig.in_bounds(i, j, k, t) ==>
            ((#[trigger] gl.at(i, j, k, t)) is Undefined || gr.at(i, j, k, t) is Undefined),
        forall|i: int, j: int, k: int, t: int|
            orig.in_bounds(i, j, k, t) && !(orig.at(i, j, k, t) is Undefined) ==>
            !((#[trigger] gl.at(i, j, k, t)) is Undefined && gr.at(i, j, k, t) is Undefined),
{
    assert forall|i: int, j: int, k: int, t: int| orig.in_bounds(i, j, k, t) implies
        ((#[trigger] gl.at(i, j, k, t)) is Undefined || gr.at(i, j, k, t) is Undefined) by {
        assert(gl.at(i, j, k, t) == (if side_masks(Side::Left, i, x0) {
            Sample::Undefined
        } else {
            orig.at(i, j, k, t)
        }));
        assert(gr.at(i, j, k, t) == (if side_masks(Side::Right, i, x0) {
            Sample::Undefined
        } else {
            orig.at(i, j, k, t)
        }));
    }
    assert forall|i: int, j: int, k: int, t: int|
        orig.in_bounds(i, j, k, t) && !(orig.at(i, j, k, t) is Undefined) implies
        !((#[trigger] gl.at(i, j, k, t)) is Undefined && gr.at(i, j, k, t) is Undefined) by {
        assert(gl.at(i, j, k, t) == (if side_masks(Side::Left, i, x0) {
            Sample::Undefined
        } else {
            orig.at(i, j, k, t)
        }));
        assert(gr.at(i, j, k, t) == (if side_masks(Side::Right, i, x0) {
            Sample::Undefined
        } else {
            orig.at(i, j, k, t)
        }));
    }
}

} // verus!
