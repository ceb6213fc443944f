use vstd::prelude::*;

use crate::error::NirustError;
use crate::ratio::Ratio;

verus! {

/// One voxel's value: an exact rational, or no value at all.
///
/// `Undefined` stands for the samples that carry no signal — the blanked
/// voxels of a masked hemisphere, or a quotient whose divisor is zero. It
/// propagates through arithmetic the way a quiet non-value does: any
/// aggregate that touches one is itself `Undefined`.
#[derive(Clone, Copy, Debug)]
pub enum Sample {
    Num(Ratio),
    Undefined,
}

/// A sample is well formed when the rational it may carry is.
pub open spec fn sample_wf(s: Sample) -> bool {
    match s {
        Sample::Num(r) => r.wf(),
        Sample::Undefined => true,
    }
}

impl Sample {
    /// Whether this sample carries no value.
    pub fn is_undefined(self) -> (r: bool)
        ensures
            r == (self is Undefined),
    {
        match self {
            Sample::Undefined => true,
            Sample::Num(_) => false,
        }
    }
}

/// A dense rectangular voxel grid of rank 3 (spatial) or 4 (spatial plus
/// time), with axis order `(i, j, k, t)` and the time axis varying fastest
/// in the flat storage. A rank-3 grid has `nt == 1`.
pub struct VoxelGrid {
    pub nx: usize,
    pub ny: usize,
    pub nz: usize,
    pub nt: usize,
    pub four_d: bool,
    pub data: Vec<Sample>,
}

impl VoxelGrid {
    /// Positive extents, a unit time axis unless the grid is 4-D, storage
    /// of exactly one well-formed sample per index.
    pub open spec fn wf(self) -> bool {
        &&& self.nx >= 1
        &&& self.ny >= 1
        &&& self.nz >= 1
        &&& self.nt >= 1
        &&& !self.four_d ==> self.nt == 1
        &&& self.data@.len() == self.nx * self.ny * self.nz * self.nt
        &&& forall|f: int| 0 <= f < self.data@.len() ==> sample_wf(#[trigger] self.data@[f])
    }

    /// The grid's rank: 4 with a time axis, 3 without.
    pub open spec fn rank(self) -> int {
        if self.four_d { 4 } else { 3 }
    }

    /// Whether `(i, j, k, t)` addresses a voxel.
    pub open spec fn in_bounds(self, i: int, j: int, k: int, t: int) -> bool {
        0 <= i < self.nx && 0 <= j < self.ny && 0 <= k < self.nz && 0 <= t < self.nt
    }

    /// The flat storage index of `(i, j, k, t)`.
    pub open spec fn flat(self, i: int, j: int, k: int, t: int) -> int {
        ((i * self.ny + j) * self.nz + k) * self.nt + t
    }

    /// The sample at `(i, j, k, t)`.
    pub open spec fn at(self, i: int, j: int, k: int, t: int) -> Sample {
        self.data@[self.flat(i, j, k, t)]
    }

    /// The sample at a spatial index of a rank-3 grid.
    pub open spec fn at3(self, i: int, j: int, k: int) -> Sample {
        self.at(i, j, k, 0)
    }

    /// Two grids cover the same spatial index space.
    pub open spec fn same_spatial(self, other: VoxelGrid) -> bool {
        self.nx == other.nx && self.ny == other.ny && self.nz == other.nz
    }

    /// Allocate a grid of the given extents with every sample set to
    /// `fill`. Fails exactly when the voxel count cannot be addressed.
    pub fn new_fill(nx: usize, ny: usize, nz: usize, nt: usize, four_d: bool, fill: Sample)
        -> (r: Result<VoxelGrid, NirustError>)
        requires
            nx >= 1,
            ny >= 1,
            nz >= 1,
            nt >= 1,
            !four_d ==> nt == 1,
            sample_wf(fill),
        ensures
            r matches Ok(g) ==> g.wf() && g.nx == nx && g.ny == ny && g.nz == nz
                && g.nt == nt && g.four_d == four_d
                && forall|f: int| 0 <= f < g.data@.len() ==> #[trigger] g.data@[f] == fill,
            r is Err <==> nx * ny * nz * nt > usize::MAX,
            r matches Err(e) ==> e == NirustError::ArithmeticOverflow,
    {
        let p1 = match nx.checked_mul(ny) {
            Some(v) => v,
            None => {
                proof {
                    lemma_prod_grows(nx as int, ny as int, nz as int, nt as int);
                }
                return Err(NirustError::ArithmeticOverflow);
            },
        };
        let p2 = match p1.checked_mul(nz) {
            Some(v) => v,
            None => {
                proof {
                    lemma_prod_grows(nx as int, ny as int, nz as int, nt as int);
                }
                return Err(NirustError::ArithmeticOverflow);
            },
        };
        let total = match p2.checked_mul(nt) {
            Some(v) => v,
            None => {
                proof {
                    lemma_prod_grows(nx as int, ny as int, nz as int, nt as int);
                }
                return Err(NirustError::ArithmeticOverflow);
            },
        };
        let mut data: Vec<Sample> = Vec::new();
        let mut c: usize = 0;
        while c < total
            invariant
                c <= total,
                data@.len() == c,
                forall|f: int| 0 <= f < c ==> #[trigger] data@[f] == fill,
            decreases total - c,
        {
            data.push(fill);
            c += 1;
        }
        Ok(VoxelGrid { nx, ny, nz, nt, four_d, data })
    }

    /// Read the sample at `(i, j, k, t)`.
    pub fn get(&self, i: usize, j: usize, k: usize, t: usize) -> (r: Sample)
        requires
            self.wf(),
            self.in_bounds(i as int, j as int, k as int, t as int),
        ensures
            r == self.at(i as int, j as int, k as int, t as int),
            sample_wf(r),
    {
        let n = self.data.len();
        proof {
            lemma_flat_bounds(*self, i as int, j as int, k as int, t as int);
            assert(n == self.data@.len() && n <= usize::MAX);
        }
        let f = ((i * self.ny + j) * self.nz + k) * self.nt + t;
        self.data[f]
    }

    /// Read the sample at a spatial index of a rank-3 grid.
    pub fn get3(&self, i: usize, j: usize, k: usize) -> (r: Sample)
        requires
            self.wf(),
            self.in_bounds(i as int, j as int, k as int, 0),
        ensures
            r == self.at3(i as int, j as int, k as int),
            sample_wf(r),
    {
        self.get(i, j, k, 0)
    }
}

/// Each partial product of the voxel count is bounded by the full count.
proof fn lemma_prod_grows(nx: int, ny: int, nz: int, nt: int)
    requires
        nx >= 1,
        ny >= 1,
        nz >= 1,
        nt >= 1,
    ensures
        nx * ny <= nx * ny * nz * nt,
        nx * ny * nz <= nx * ny * nz * nt,
{
    assert(nx * ny <= nx * ny * nz * nt && nx * ny * nz <= nx * ny * nz * nt)
        by (nonlinear_arith)
        requires
            nx >= 1,
            ny >= 1,
            nz >= 1,
            nt >= 1;
}

/// The flat index of an in-bounds voxel addresses the storage, and every
/// intermediate product along the way stays below the voxel count.
pub proof fn lemma_flat_bounds(g: VoxelGrid, i: int, j: int, k: int, t: int)
    requires
        g.wf(),
        g.in_bounds(i, j, k, t),
    ensures
        0 <= g.flat(i, j, k, t) < g.data@.len(),
        0 <= i * g.ny + j < g.nx * g.ny,
        0 <= (i * g.ny + j) * g.nz + k < g.nx * g.ny * g.nz,
        g.nx * g.ny <= g.data@.len(),
        g.nx * g.ny * g.nz <= g.data@.len(),
{
    lemma_prod_grows(g.nx as int, g.ny as int, g.nz as int, g.nt as int);
    let ny = g.ny as int;
    let nz = g.nz as int;
    let nt = g.nt as int;
    let nx = g.nx as int;
    assert(0 <= i * ny + j < nx * ny
        && 0 <= (i * ny + j) * nz + k < nx * ny * nz
        && 0 <= ((i * ny + j) * nz + k) * nt + t < nx * ny * nz * nt)
        by (nonlinear_arith)
        requires
            0 <= i < nx,
            0 <= j < ny,
            0 <= k < nz,
            0 <= t < nt;
}

/// The first axis's index can be read back off a flat index by dividing by
/// the size of one slab.
pub proof fn lemma_flat_first_axis(g: VoxelGrid, i: int, j: int, k: int, t: int)
    requires
        g.wf(),
        g.in_bounds(i, j, k, t),
    ensures
        g.flat(i, j, k, t) / (g.ny * g.nz * g.nt) == i,
{
    let ny = g.ny as int;
    let nz = g.nz as int;
    let nt = g.nt as int;
    let slab = ny * nz * nt;
    let rem = (j * nz + k) * nt + t;
    assert(g.flat(i, j, k, t) == i * slab + rem && 0 <= rem < slab) by (nonlinear_arith)
        requires
            0 <= j < ny,
            0 <= k < nz,
            0 <= t < nt,
            slab == ny * nz * nt,
            rem == (j * nz + k) * nt + t,
            g.flat(i, j, k, t) == ((i * ny + j) * nz + k) * nt + t;
    vstd::arithmetic::div_mod::lemma_fundamental_div_mod_converse(
        g.flat(i, j, k, t), slab, i, rem,
    );
}

} // verus!
