use vstd::prelude::*;

use crate::error::NirustError;
use vstd::arithmetic::mul::lemma_mul_strictly_positive;

use crate::ratio::{
    add_fits, dominated, in_i128, lemma_add_assoc, lemma_add_compat, lemma_add_exchange, lemma_add_step,
    lemma_add_wf, lemma_add_zero_left, lemma_add_zero_right, lemma_eqv_trans, lemma_mag_mul,
    lemma_mag_mul_pos, lemma_mag_prod_le, lemma_mul_assoc, lemma_mul_compat,
    lemma_add_bounds, lemma_add_dom, lemma_mul_bounds, lemma_mul_dom,
    lemma_mul_distrib_left, lemma_mul_distrib_right, lemma_mul_one_left, lemma_mul_step,
    lemma_mul_wf, lemma_mul_zero_left, lemma_sub_step, mag, mag_rat, mul_fits, rat_add,
    rat_eqv, rat_mul, rat_of_int, rat_sub, rat_wf, Rat, Ratio,
};

verus! {

/// A 4 x 4 affine matrix over exact rationals, mapping homogeneous voxel
/// indices `(i, j, k, 1)` to homogeneous world coordinates. Entries are
/// stored row-major: row `r`, column `c` sits at index `4 * r + c`.
///
/// [`get_affine`] builds one from an image header's three spatial rows and
/// always appends the constant bottom row `(0, 0, 0, 1)`; coordinate
/// transforms read only the three spatial rows, so a matrix produced by
/// composition is interchangeable with one whose bottom row is literal.
pub struct AffineMatrix {
    pub m: Vec<Ratio>,
}

impl AffineMatrix {
    /// The entry at row `r`, column `c`, as a specification rational.
    pub open spec fn ent(self, r: int, c: int) -> Rat {
        self.m@[4 * r + c]@
    }

    /// Sixteen well-formed entries.
    pub open spec fn wf(self) -> bool {
        &&& self.m@.len() == 16
        &&& forall|i: int| 0 <= i < 16 ==> (#[trigger] self.m@[i]).wf()
    }
}

/// The four-term inner product
/// `p0 q0 + p1 q1 + p2 q2 + p3 q3`, associated to the left.
pub open spec fn spec_dot4(
    p0: Rat, p1: Rat, p2: Rat, p3: Rat,
    q0: Rat, q1: Rat, q2: Rat, q3: Rat,
) -> Rat {
    rat_add(
        rat_add(rat_add(rat_mul(p0, q0), rat_mul(p1, q1)), rat_mul(p2, q2)),
        rat_mul(p3, q3),
    )
}

/// The identity matrix's entry at `(r, c)`.
pub open spec fn spec_id_ent(r: int, c: int) -> Rat {
    if r == c {
        rat_of_int(1)
    } else {
        rat_of_int(0)
    }
}

/// Entry `(r, c)` of the matrix product `a * b`.
pub open spec fn spec_mm_ent(a: AffineMatrix, b: AffineMatrix, r: int, c: int) -> Rat {
    spec_dot4(
        a.ent(r, 0), a.ent(r, 1), a.ent(r, 2), a.ent(r, 3),
        b.ent(0, c), b.ent(1, c), b.ent(2, c), b.ent(3, c),
    )
}

/// Component `r` of the image of the point `(x, y, z)` under `a`: the dot
/// product of row `r` with the homogeneous column `(x, y, z, 1)`.
pub open spec fn spec_apply_row(a: AffineMatrix, r: int, x: Rat, y: Rat, z: Rat) -> Rat {
    spec_dot4(
        a.ent(r, 0), a.ent(r, 1), a.ent(r, 2), a.ent(r, 3),
        x, y, z, rat_of_int(1),
    )
}

/// `b` is a two-sided inverse of `a`: both products are the identity,
/// entry by entry, as rational values.
pub open spec fn is_inverse(b: AffineMatrix, a: AffineMatrix) -> bool {
    &&& forall|r: int, c: int| 0 <= r < 4 && 0 <= c < 4 ==>
        rat_eqv(#[trigger] spec_mm_ent(b, a, r, c), spec_id_ent(r, c))
    &&& forall|r: int, c: int| 0 <= r < 4 && 0 <= c < 4 ==>
        rat_eqv(#[trigger] spec_mm_ent(a, b, r, c), spec_id_ent(r, c))
}

/// `a d - b c`, the determinant of the 2 x 2 matrix `[[a, b], [c, d]]`.
pub open spec fn spec_minor(a: Rat, b: Rat, c: Rat, d: Rat) -> Rat {
    rat_sub(rat_mul(a, d), rat_mul(b, c))
}

/// The determinant of the upper-left 3 x 3 block of `m`. For an affine
/// matrix with bottom row `(0, 0, 0, 1)` this equals the full determinant,
/// and the matrix is invertible exactly when it is not zero.
pub open spec fn spec_det3(m: AffineMatrix) -> Rat {
    rat_add(
        rat_sub(
            rat_mul(m.ent(0, 0), spec_minor(m.ent(1, 1), m.ent(1, 2), m.ent(2, 1), m.ent(2, 2))),
            rat_mul(m.ent(0, 1), spec_minor(m.ent(1, 0), m.ent(1, 2), m.ent(2, 0), m.ent(2, 2))),
        ),
        rat_mul(m.ent(0, 2), spec_minor(m.ent(1, 0), m.ent(1, 1), m.ent(2, 0), m.ent(2, 1))),
    )
}

/// Splitting a flat row-major index back into its row and column.
pub proof fn lemma_quad_index(r: int, c: int)
    requires
        0 <= c < 4,
    ensures
        (4 * r + c) / 4 == r,
        (4 * r + c) % 4 == c,
{
    vstd::arithmetic::div_mod::lemma_fundamental_div_mod_converse(4 * r + c, 4, r, c);
}

/// Every entry of a product of well-formed matrices is well formed.
pub proof fn lemma_mm_ent_wf(a: AffineMatrix, b: AffineMatrix, r: int, c: int)
    requires
        a.wf(),
        b.wf(),
        0 <= r < 4,
        0 <= c < 4,
    ensures
        rat_wf(spec_mm_ent(a, b, r, c)),
{
    lemma_mul_wf(a.ent(r, 0), b.ent(0, c));
    lemma_mul_wf(a.ent(r, 1), b.ent(1, c));
    lemma_mul_wf(a.ent(r, 2), b.ent(2, c));
    lemma_mul_wf(a.ent(r, 3), b.ent(3, c));
    lemma_add_wf(rat_mul(a.ent(r, 0), b.ent(0, c)), rat_mul(a.ent(r, 1), b.ent(1, c)));
    lemma_add_wf(
        rat_add(rat_mul(a.ent(r, 0), b.ent(0, c)), rat_mul(a.ent(r, 1), b.ent(1, c))),
        rat_mul(a.ent(r, 2), b.ent(2, c)),
    );
    lemma_add_wf(
        rat_add(
            rat_add(rat_mul(a.ent(r, 0), b.ent(0, c)), rat_mul(a.ent(r, 1), b.ent(1, c))),
            rat_mul(a.ent(r, 2), b.ent(2, c)),
        ),
        rat_mul(a.ent(r, 3), b.ent(3, c)),
    );
}

/// A minor of well-formed entries is well formed.
pub proof fn lemma_minor_wf(a: Rat, b: Rat, c: Rat, d: Rat)
    requires
        rat_wf(a),
        rat_wf(b),
        rat_wf(c),
        rat_wf(d),
    ensures
        rat_wf(spec_minor(a, b, c, d)),
{
    lemma_mul_wf(a, d);
    lemma_mul_wf(b, c);
    crate::ratio::lemma_sub_wf(rat_mul(a, d), rat_mul(b, c));
}

/// One application component of a well-formed matrix is well formed.
pub proof fn lemma_apply_row_wf(a: AffineMatrix, r: int, x: Rat, y: Rat, z: Rat)
    requires
        a.wf(),
        0 <= r < 4,
        rat_wf(x),
        rat_wf(y),
        rat_wf(z),
    ensures
        rat_wf(spec_apply_row(a, r, x, y, z)),
{
    lemma_dot4_wf(a.ent(r, 0), a.ent(r, 1), a.ent(r, 2), a.ent(r, 3), x, y, z, rat_of_int(1));
}

/// A four-term inner product of well-formed rationals is well formed.
pub proof fn lemma_dot4_wf(
    p0: Rat, p1: Rat, p2: Rat, p3: Rat,
    q0: Rat, q1: Rat, q2: Rat, q3: Rat,
)
    requires
        rat_wf(p0), rat_wf(p1), rat_wf(p2), rat_wf(p3),
        rat_wf(q0), rat_wf(q1), rat_wf(q2), rat_wf(q3),
    ensures
        rat_wf(spec_dot4(p0, p1, p2, p3, q0, q1, q2, q3)),
{
    lemma_mul_wf(p0, q0);
    lemma_mul_wf(p1, q1);
    lemma_mul_wf(p2, q2);
    lemma_mul_wf(p3, q3);
    lemma_add_wf(rat_mul(p0, q0), rat_mul(p1, q1));
    lemma_add_wf(rat_add(rat_mul(p0, q0), rat_mul(p1, q1)), rat_mul(p2, q2));
    lemma_add_wf(
        rat_add(rat_add(rat_mul(p0, q0), rat_mul(p1, q1)), rat_mul(p2, q2)),
        rat_mul(p3, q3),
    );
}

/// Replacing the left factors of a four-term inner product by equal
/// rationals gives an equal product.
pub proof fn lemma_dot4_compat_left(
    p0: Rat, p1: Rat, p2: Rat, p3: Rat,
    r0: Rat, r1: Rat, r2: Rat, r3: Rat,
    q0: Rat, q1: Rat, q2: Rat, q3: Rat,
)
    requires
        rat_wf(p0), rat_wf(p1), rat_wf(p2), rat_wf(p3),
        rat_wf(r0), rat_wf(r1), rat_wf(r2), rat_wf(r3),
        rat_wf(q0), rat_wf(q1), rat_wf(q2), rat_wf(q3),
        rat_eqv(p0, r0),
        rat_eqv(p1, r1),
        rat_eqv(p2, r2),
        rat_eqv(p3, r3),
    ensures
        rat_eqv(
            spec_dot4(p0, p1, p2, p3, q0, q1, q2, q3),
            spec_dot4(r0, r1, r2, r3, q0, q1, q2, q3),
        ),
{
    lemma_mul_wf(p0, q0);
    lemma_mul_wf(p1, q1);
    lemma_mul_wf(p2, q2);
    lemma_mul_wf(p3, q3);
    lemma_mul_wf(r0, q0);
    lemma_mul_wf(r1, q1);
    lemma_mul_wf(r2, q2);
    lemma_mul_wf(r3, q3);
    lemma_mul_compat(p0, r0, q0, q0);
    lemma_mul_compat(p1, r1, q1, q1);
    lemma_mul_compat(p2, r2, q2, q2);
    lemma_mul_compat(p3, r3, q3, q3);
    lemma_add_wf(rat_mul(p0, q0), rat_mul(p1, q1));
    lemma_add_wf(rat_mul(r0, q0), rat_mul(r1, q1));
    lemma_add_compat(rat_mul(p0, q0), rat_mul(r0, q0), rat_mul(p1, q1), rat_mul(r1, q1));
    lemma_add_wf(rat_add(rat_mul(p0, q0), rat_mul(p1, q1)), rat_mul(p2, q2));
    lemma_add_wf(rat_add(rat_mul(r0, q0), rat_mul(r1, q1)), rat_mul(r2, q2));
    lemma_add_compat(
        rat_add(rat_mul(p0, q0), rat_mul(p1, q1)),
        rat_add(rat_mul(r0, q0), rat_mul(r1, q1)),
        rat_mul(p2, q2),
        rat_mul(r2, q2),
    );
    lemma_add_compat(
        rat_add(rat_add(rat_mul(p0, q0), rat_mul(p1, q1)), rat_mul(p2, q2)),
        rat_add(rat_add(rat_mul(r0, q0), rat_mul(r1, q1)), rat_mul(r2, q2)),
        rat_mul(p3, q3),
        rat_mul(r3, q3),
    );
}

/// Replacing the right factors of a four-term inner product by equal
/// rationals gives an equal product.
pub proof fn lemma_dot4_compat_right(
    p0: Rat, p1: Rat, p2: Rat, p3: Rat,
    q0: Rat, q1: Rat, q2: Rat, q3: Rat,
    s0: Rat, s1: Rat, s2: Rat, s3: Rat,
)
    requires
        rat_wf(p0), rat_wf(p1), rat_wf(p2), rat_wf(p3),
        rat_wf(q0), rat_wf(q1), rat_wf(q2), rat_wf(q3),
        rat_wf(s0), rat_wf(s1), rat_wf(s2), rat_wf(s3),
        rat_eqv(q0, s0),
        rat_eqv(q1, s1),
        rat_eqv(q2, s2),
        rat_eqv(q3, s3),
    ensures
        rat_eqv(
            spec_dot4(p0, p1, p2, p3, q0, q1, q2, q3),
            spec_dot4(p0, p1, p2, p3, s0, s1, s2, s3),
        ),
{
    lemma_mul_wf(p0, q0);
    lemma_mul_wf(p1, q1);
    lemma_mul_wf(p2, q2);
    lemma_mul_wf(p3, q3);
    lemma_mul_wf(p0, s0);
    lemma_mul_wf(p1, s1);
    lemma_mul_wf(p2, s2);
    lemma_mul_wf(p3, s3);
    lemma_mul_compat(p0, p0, q0, s0);
    lemma_mul_compat(p1, p1, q1, s1);
    lemma_mul_compat(p2, p2, q2, s2);
    lemma_mul_compat(p3, p3, q3, s3);
    lemma_add_wf(rat_mul(p0, q0), rat_mul(p1, q1));
    lemma_add_wf(rat_mul(p0, s0), rat_mul(p1, s1));
    lemma_add_compat(rat_mul(p0, q0), rat_mul(p0, s0), rat_mul(p1, q1), rat_mul(p1, s1));
    lemma_add_wf(rat_add(rat_mul(p0, q0), rat_mul(p1, q1)), rat_mul(p2, q2));
    lemma_add_wf(rat_add(rat_mul(p0, s0), rat_mul(p1, s1)), rat_mul(p2, s2));
    lemma_add_compat(
        rat_add(rat_mul(p0, q0), rat_mul(p1, q1)),
        rat_add(rat_mul(p0, s0), rat_mul(p1, s1)),
        rat_mul(p2, q2),
        rat_mul(p2, s2),
    );
    lemma_add_compat(
        rat_add(rat_add(rat_mul(p0, q0), rat_mul(p1, q1)), rat_mul(p2, q2)),
        rat_add(rat_add(rat_mul(p0, s0), rat_mul(p1, s1)), rat_mul(p2, s2)),
        rat_mul(p3, q3),
        rat_mul(p3, s3),
    );
}

/// A scalar multiple of a four-term inner product is the inner product
/// with the scalar folded into the left factors.
pub proof fn lemma_row_mul_expand(
    c: Rat,
    p0: Rat, p1: Rat, p2: Rat, p3: Rat,
    q0: Rat, q1: Rat, q2: Rat, q3: Rat,
)
    requires
        rat_wf(c),
        rat_wf(p0), rat_wf(p1), rat_wf(p2), rat_wf(p3),
        rat_wf(q0), rat_wf(q1), rat_wf(q2), rat_wf(q3),
    ensures
        rat_eqv(
            rat_mul(c, spec_dot4(p0, p1, p2, p3, q0, q1, q2, q3)),
            spec_dot4(
                rat_mul(c, p0), rat_mul(c, p1), rat_mul(c, p2), rat_mul(c, p3),
                q0, q1, q2, q3,
            ),
        ),
{
    let t0 = rat_mul(p0, q0);
    let t1 = rat_mul(p1, q1);
    let t2 = rat_mul(p2, q2);
    let t3 = rat_mul(p3, q3);
    let s1 = rat_add(t0, t1);
    let s2 = rat_add(s1, t2);
    let u0 = rat_mul(rat_mul(c, p0), q0);
    let u1 = rat_mul(rat_mul(c, p1), q1);
    let u2 = rat_mul(rat_mul(c, p2), q2);
    let u3 = rat_mul(rat_mul(c, p3), q3);
    let v1 = rat_add(u0, u1);
    let v2 = rat_add(v1, u2);
    lemma_mul_wf(p0, q0);
    lemma_mul_wf(p1, q1);
    lemma_mul_wf(p2, q2);
    lemma_mul_wf(p3, q3);
    lemma_add_wf(t0, t1);
    lemma_add_wf(s1, t2);
    lemma_add_wf(s2, t3);
    lemma_mul_wf(c, p0);
    lemma_mul_wf(c, p1);
    lemma_mul_wf(c, p2);
    lemma_mul_wf(c, p3);
    lemma_mul_wf(rat_mul(c, p0), q0);
    lemma_mul_wf(rat_mul(c, p1), q1);
    lemma_mul_wf(rat_mul(c, p2), q2);
    lemma_mul_wf(rat_mul(c, p3), q3);
    lemma_add_wf(u0, u1);
    lemma_add_wf(v1, u2);
    lemma_add_wf(v2, u3);
    lemma_mul_wf(c, t0);
    lemma_mul_wf(c, t1);
    lemma_mul_wf(c, t2);
    lemma_mul_wf(c, t3);
    lemma_mul_wf(c, s1);
    lemma_mul_wf(c, s2);
    lemma_add_wf(rat_mul(c, t0), rat_mul(c, t1));
    lemma_add_wf(rat_mul(c, s1), rat_mul(c, t2));
    lemma_add_wf(rat_mul(c, s2), rat_mul(c, t3));
    lemma_mul_wf(c, rat_add(s2, t3));
    lemma_mul_distrib_left(c, s2, t3);
    lemma_mul_distrib_left(c, s1, t2);
    lemma_mul_distrib_left(c, t0, t1);
    lemma_mul_assoc(c, p0, q0);
    lemma_mul_assoc(c, p1, q1);
    lemma_mul_assoc(c, p2, q2);
    lemma_mul_assoc(c, p3, q3);
    lemma_add_compat(rat_mul(c, t0), u0, rat_mul(c, t1), u1);
    lemma_eqv_trans(rat_mul(c, s1), rat_add(rat_mul(c, t0), rat_mul(c, t1)), v1);
    lemma_add_compat(rat_mul(c, s1), v1, rat_mul(c, t2), u2);
    lemma_eqv_trans(rat_mul(c, s2), rat_add(rat_mul(c, s1), rat_mul(c, t2)), v2);
    lemma_add_compat(rat_mul(c, s2), v2, rat_mul(c, t3), u3);
    lemma_eqv_trans(
        rat_mul(c, rat_add(s2, t3)),
        rat_add(rat_mul(c, s2), rat_mul(c, t3)),
        rat_add(v2, u3),
    );
}

/// The sum of two inner products against one right column is the inner
/// product of the summed left factors against that column.
pub proof fn lemma_dot4_add_left(
    p0: Rat, p1: Rat, p2: Rat, p3: Rat,
    r0: Rat, r1: Rat, r2: Rat, r3: Rat,
    q0: Rat, q1: Rat, q2: Rat, q3: Rat,
)
    requires
        rat_wf(p0), rat_wf(p1), rat_wf(p2), rat_wf(p3),
        rat_wf(r0), rat_wf(r1), rat_wf(r2), rat_wf(r3),
        rat_wf(q0), rat_wf(q1), rat_wf(q2), rat_wf(q3),
    ensures
        rat_eqv(
            rat_add(
                spec_dot4(p0, p1, p2, p3, q0, q1, q2, q3),
                spec_dot4(r0, r1, r2, r3, q0, q1, q2, q3),
            ),
            spec_dot4(
                rat_add(p0, r0), rat_add(p1, r1), rat_add(p2, r2), rat_add(p3, r3),
                q0, q1, q2, q3,
            ),
        ),
{
    let pp0 = rat_mul(p0, q0);
    let pp1 = rat_mul(p1, q1);
    let pp2 = rat_mul(p2, q2);
    let pp3 = rat_mul(p3, q3);
    let rr0 = rat_mul(r0, q0);
    let rr1 = rat_mul(r1, q1);
    let rr2 = rat_mul(r2, q2);
    let rr3 = rat_mul(r3, q3);
    let a0 = rat_add(pp0, rr0);
    let a1 = rat_add(pp1, rr1);
    let a2 = rat_add(pp2, rr2);
    let a3 = rat_add(pp3, rr3);
    let s0 = rat_mul(rat_add(p0, r0), q0);
    let s1 = rat_mul(rat_add(p1, r1), q1);
    let s2 = rat_mul(rat_add(p2, r2), q2);
    let s3 = rat_mul(rat_add(p3, r3), q3);
    let dp = spec_dot4(p0, p1, p2, p3, q0, q1, q2, q3);
    let dr = spec_dot4(r0, r1, r2, r3, q0, q1, q2, q3);
    lemma_mul_wf(p0, q0);
    lemma_mul_wf(p1, q1);
    lemma_mul_wf(p2, q2);
    lemma_mul_wf(p3, q3);
    lemma_mul_wf(r0, q0);
    lemma_mul_wf(r1, q1);
    lemma_mul_wf(r2, q2);
    lemma_mul_wf(r3, q3);
    lemma_add_wf(pp0, rr0);
    lemma_add_wf(pp1, rr1);
    lemma_add_wf(pp2, rr2);
    lemma_add_wf(pp3, rr3);
    lemma_add_wf(p0, r0);
    lemma_add_wf(p1, r1);
    lemma_add_wf(p2, r2);
    lemma_add_wf(p3, r3);
    lemma_mul_wf(rat_add(p0, r0), q0);
    lemma_mul_wf(rat_add(p1, r1), q1);
    lemma_mul_wf(rat_add(p2, r2), q2);
    lemma_mul_wf(rat_add(p3, r3), q3);
    lemma_dot4_wf(p0, p1, p2, p3, q0, q1, q2, q3);
    lemma_dot4_wf(r0, r1, r2, r3, q0, q1, q2, q3);
    lemma_add_wf(pp0, pp1);
    lemma_add_wf(rat_add(pp0, pp1), pp2);
    lemma_add_wf(rr0, rr1);
    lemma_add_wf(rat_add(rr0, rr1), rr2);
    lemma_add_wf(dp, dr);
    lemma_add_wf(pp2, pp3);
    lemma_add_wf(rr2, rr3);
    lemma_add_wf(rat_add(pp0, pp1), rat_add(pp2, pp3));
    lemma_add_wf(rat_add(rr0, rr1), rat_add(rr2, rr3));

    // Balance the two left-associated sums.
    lemma_add_assoc(rat_add(pp0, pp1), pp2, pp3);
    lemma_add_assoc(rat_add(rr0, rr1), rr2, rr3);
    // Sum them and exchange halves, then exchange within each half.
    lemma_add_compat(
        dp, rat_add(rat_add(pp0, pp1), rat_add(pp2, pp3)),
        dr, rat_add(rat_add(rr0, rr1), rat_add(rr2, rr3)),
    );
    lemma_add_exchange(rat_add(pp0, pp1), rat_add(pp2, pp3), rat_add(rr0, rr1), rat_add(rr2, rr3));
    lemma_add_exchange(pp0, pp1, rr0, rr1);
    lemma_add_exchange(pp2, pp3, rr2, rr3);
    lemma_add_wf(rat_add(pp0, pp1), rat_add(rr0, rr1));
    lemma_add_wf(rat_add(pp2, pp3), rat_add(rr2, rr3));
    lemma_add_wf(a0, a1);
    lemma_add_wf(a2, a3);
    lemma_add_compat(
        rat_add(rat_add(pp0, pp1), rat_add(rr0, rr1)), rat_add(a0, a1),
        rat_add(rat_add(pp2, pp3), rat_add(rr2, rr3)), rat_add(a2, a3),
    );
    // Rebuild the left-associated target.
    lemma_add_assoc(rat_add(a0, a1), a2, a3);
    lemma_add_wf(rat_add(a0, a1), a2);
    lemma_add_wf(rat_add(rat_add(a0, a1), a2), a3);
    lemma_add_wf(rat_add(a0, a1), rat_add(a2, a3));
    lemma_add_wf(
        rat_add(rat_add(pp0, pp1), rat_add(pp2, pp3)),
        rat_add(rat_add(rr0, rr1), rat_add(rr2, rr3)),
    );
    lemma_add_wf(
        rat_add(rat_add(pp0, pp1), rat_add(rr0, rr1)),
        rat_add(rat_add(pp2, pp3), rat_add(rr2, rr3)),
    );
    lemma_eqv_trans(
        rat_add(dp, dr),
        rat_add(
            rat_add(rat_add(pp0, pp1), rat_add(pp2, pp3)),
            rat_add(rat_add(rr0, rr1), rat_add(rr2, rr3)),
        ),
        rat_add(
            rat_add(rat_add(pp0, pp1), rat_add(rr0, rr1)),
            rat_add(rat_add(pp2, pp3), rat_add(rr2, rr3)),
        ),
    );
    lemma_eqv_trans(
        rat_add(dp, dr),
        rat_add(
            rat_add(rat_add(pp0, pp1), rat_add(rr0, rr1)),
            rat_add(rat_add(pp2, pp3), rat_add(rr2, rr3)),
        ),
        rat_add(rat_add(a0, a1), rat_add(a2, a3)),
    );
    lemma_eqv_trans(
        rat_add(dp, dr),
        rat_add(rat_add(a0, a1), rat_add(a2, a3)),
        rat_add(rat_add(rat_add(a0, a1), a2), a3),
    );
    // Replace each summed product by the product of the sums.
    lemma_mul_distrib_right(p0, r0, q0);
    lemma_mul_distrib_right(p1, r1, q1);
    lemma_mul_distrib_right(p2, r2, q2);
    lemma_mul_distrib_right(p3, r3, q3);
    lemma_add_compat(a0, s0, a1, s1);
    lemma_add_wf(s0, s1);
    lemma_add_compat(rat_add(a0, a1), rat_add(s0, s1), a2, s2);
    lemma_add_wf(rat_add(s0, s1), s2);
    lemma_add_compat(
        rat_add(rat_add(a0, a1), a2), rat_add(rat_add(s0, s1), s2), a3, s3,
    );
    lemma_add_wf(rat_add(rat_add(s0, s1), s2), s3);
    lemma_eqv_trans(
        rat_add(dp, dr),
        rat_add(rat_add(rat_add(a0, a1), a2), a3),
        rat_add(rat_add(rat_add(s0, s1), s2), s3),
    );
}

/// Applying `b` to the image of a point under `a` gives the application
/// of the matrix product `b * a`, provided `a` carries the affine bottom
/// row `(0, 0, 0, 1)` so that homogeneous coordinates stay homogeneous.
pub proof fn lemma_apply_compose(b: AffineMatrix, a: AffineMatrix, r: int, x: Rat, y: Rat, z: Rat)
    requires
        a.wf(),
        b.wf(),
        0 <= r < 4,
        rat_wf(x),
        rat_wf(y),
        rat_wf(z),
        rat_eqv(a.ent(3, 0), rat_of_int(0)),
        rat_eqv(a.ent(3, 1), rat_of_int(0)),
        rat_eqv(a.ent(3, 2), rat_of_int(0)),
        rat_eqv(a.ent(3, 3), rat_of_int(1)),
    ensures
        rat_eqv(
            spec_apply_row(
                b, r,
                spec_apply_row(a, 0, x, y, z),
                spec_apply_row(a, 1, x, y, z),
                spec_apply_row(a, 2, x, y, z),
            ),
            spec_dot4(
                spec_mm_ent(b, a, r, 0), spec_mm_ent(b, a, r, 1),
                spec_mm_ent(b, a, r, 2), spec_mm_ent(b, a, r, 3),
                x, y, z, rat_of_int(1),
            ),
        ),
{
    let one = rat_of_int(1);
    let w0 = spec_apply_row(a, 0, x, y, z);
    let w1 = spec_apply_row(a, 1, x, y, z);
    let w2 = spec_apply_row(a, 2, x, y, z);
    let w3 = spec_apply_row(a, 3, x, y, z);
    let b0 = b.ent(r, 0);
    let b1 = b.ent(r, 1);
    let b2 = b.ent(r, 2);
    let b3 = b.ent(r, 3);
    lemma_apply_row_wf(a, 0, x, y, z);
    lemma_apply_row_wf(a, 1, x, y, z);
    lemma_apply_row_wf(a, 2, x, y, z);
    lemma_apply_row_wf(a, 3, x, y, z);
    // The bottom row of `a` sends every point's homogeneous coordinate
    // to one.
    lemma_dot4_unit(
        a.ent(3, 0), a.ent(3, 1), a.ent(3, 2), a.ent(3, 3),
        x, y, z, one, 3,
    );
    // Swap the literal one for that coordinate.
    lemma_dot4_compat_right(
        b0, b1, b2, b3,
        w0, w1, w2, one,
        w0, w1, w2, w3,
    );
    // Push each row factor of `b` through the corresponding row of `a`.
    let t0 = rat_mul(b0, w0);
    let t1 = rat_mul(b1, w1);
    let t2 = rat_mul(b2, w2);
    let t3 = rat_mul(b3, w3);
    lemma_mul_wf(b0, w0);
    lemma_mul_wf(b1, w1);
    lemma_mul_wf(b2, w2);
    lemma_mul_wf(b3, w3);
    lemma_row_mul_expand(b0, a.ent(0, 0), a.ent(0, 1), a.ent(0, 2), a.ent(0, 3), x, y, z, one);
    lemma_row_mul_expand(b1, a.ent(1, 0), a.ent(1, 1), a.ent(1, 2), a.ent(1, 3), x, y, z, one);
    lemma_row_mul_expand(b2, a.ent(2, 0), a.ent(2, 1), a.ent(2, 2), a.ent(2, 3), x, y, z, one);
    lemma_row_mul_expand(b3, a.ent(3, 0), a.ent(3, 1), a.ent(3, 2), a.ent(3, 3), x, y, z, one);
    let m00 = rat_mul(b0, a.ent(0, 0));
    let m01 = rat_mul(b0, a.ent(0, 1));
    let m02 = rat_mul(b0, a.ent(0, 2));
    let m03 = rat_mul(b0, a.ent(0, 3));
    let m10 = rat_mul(b1, a.ent(1, 0));
    let m11 = rat_mul(b1, a.ent(1, 1));
    let m12 = rat_mul(b1, a.ent(1, 2));
    let m13 = rat_mul(b1, a.ent(1, 3));
    let m20 = rat_mul(b2, a.ent(2, 0));
    let m21 = rat_mul(b2, a.ent(2, 1));
    let m22 = rat_mul(b2, a.ent(2, 2));
    let m23 = rat_mul(b2, a.ent(2, 3));
    let m30 = rat_mul(b3, a.ent(3, 0));
    let m31 = rat_mul(b3, a.ent(3, 1));
    let m32 = rat_mul(b3, a.ent(3, 2));
    let m33 = rat_mul(b3, a.ent(3, 3));
    lemma_mul_wf(b0, a.ent(0, 0));
    lemma_mul_wf(b0, a.ent(0, 1));
    lemma_mul_wf(b0, a.ent(0, 2));
    lemma_mul_wf(b0, a.ent(0, 3));
    lemma_mul_wf(b1, a.ent(1, 0));
    lemma_mul_wf(b1, a.ent(1, 1));
    lemma_mul_wf(b1, a.ent(1, 2));
    lemma_mul_wf(b1, a.ent(1, 3));
    lemma_mul_wf(b2, a.ent(2, 0));
    lemma_mul_wf(b2, a.ent(2, 1));
    lemma_mul_wf(b2, a.ent(2, 2));
    lemma_mul_wf(b2, a.ent(2, 3));
    lemma_mul_wf(b3, a.ent(3, 0));
    lemma_mul_wf(b3, a.ent(3, 1));
    lemma_mul_wf(b3, a.ent(3, 2));
    lemma_mul_wf(b3, a.ent(3, 3));
    let d0 = spec_dot4(m00, m01, m02, m03, x, y, z, one);
    let d1 = spec_dot4(m10, m11, m12, m13, x, y, z, one);
    let d2 = spec_dot4(m20, m21, m22, m23, x, y, z, one);
    let d3 = spec_dot4(m30, m31, m32, m33, x, y, z, one);
    lemma_dot4_wf(m00, m01, m02, m03, x, y, z, one);
    lemma_dot4_wf(m10, m11, m12, m13, x, y, z, one);
    lemma_dot4_wf(m20, m21, m22, m23, x, y, z, one);
    lemma_dot4_wf(m30, m31, m32, m33, x, y, z, one);
    // Accumulate the rows, keeping the inner products merged.
    lemma_add_wf(t0, t1);
    lemma_add_wf(d0, d1);
    lemma_add_compat(t0, d0, t1, d1);
    lemma_dot4_add_left(m00, m01, m02, m03, m10, m11, m12, m13, x, y, z, one);
    let e10 = rat_add(m00, m10);
    let e11 = rat_add(m01, m11);
    let e12 = rat_add(m02, m12);
    let e13 = rat_add(m03, m13);
    lemma_add_wf(m00, m10);
    lemma_add_wf(m01, m11);
    lemma_add_wf(m02, m12);
    lemma_add_wf(m03, m13);
    let f1 = spec_dot4(e10, e11, e12, e13, x, y, z, one);
    lemma_dot4_wf(e10, e11, e12, e13, x, y, z, one);
    lemma_eqv_trans(rat_add(t0, t1), rat_add(d0, d1), f1);
    lemma_add_wf(rat_add(t0, t1), t2);
    lemma_add_wf(f1, d2);
    lemma_add_compat(rat_add(t0, t1), f1, t2, d2);
    lemma_dot4_add_left(e10, e11, e12, e13, m20, m21, m22, m23, x, y, z, one);
    let e20 = rat_add(e10, m20);
    let e21 = rat_add(e11, m21);
    let e22 = rat_add(e12, m22);
    let e23 = rat_add(e13, m23);
    lemma_add_wf(e10, m20);
    lemma_add_wf(e11, m21);
    lemma_add_wf(e12, m22);
    lemma_add_wf(e13, m23);
    let f2 = spec_dot4(e20, e21, e22, e23, x, y, z, one);
    lemma_dot4_wf(e20, e21, e22, e23, x, y, z, one);
    lemma_eqv_trans(rat_add(rat_add(t0, t1), t2), rat_add(f1, d2), f2);
    lemma_add_wf(rat_add(rat_add(t0, t1), t2), t3);
    lemma_add_wf(f2, d3);
    lemma_add_compat(rat_add(rat_add(t0, t1), t2), f2, t3, d3);
    lemma_dot4_add_left(e20, e21, e22, e23, m30, m31, m32, m33, x, y, z, one);
    let f3 = spec_dot4(
        rat_add(e20, m30), rat_add(e21, m31), rat_add(e22, m32), rat_add(e23, m33),
        x, y, z, one,
    );
    lemma_add_wf(e20, m30);
    lemma_add_wf(e21, m31);
    lemma_add_wf(e22, m32);
    lemma_add_wf(e23, m33);
    lemma_dot4_wf(
        rat_add(e20, m30), rat_add(e21, m31), rat_add(e22, m32), rat_add(e23, m33),
        x, y, z, one,
    );
    lemma_eqv_trans(rat_add(rat_add(rat_add(t0, t1), t2), t3), rat_add(f2, d3), f3);
    // The accumulated left factors are exactly the product matrix's
    // entries, so `f3` is the composed application.
    assert(rat_add(e20, m30) == spec_mm_ent(b, a, r, 0));
    assert(rat_add(e21, m31) == spec_mm_ent(b, a, r, 1));
    assert(rat_add(e22, m32) == spec_mm_ent(b, a, r, 2));
    assert(rat_add(e23, m33) == spec_mm_ent(b, a, r, 3));
    lemma_apply_row_wf(b, r, w0, w1, w2);
    lemma_eqv_trans(
        spec_apply_row(b, r, w0, w1, w2),
        rat_add(rat_add(rat_add(t0, t1), t2), t3),
        f3,
    );
}

/// Round-trip law of the coordinate transforms: mapping a voxel index
/// `(i, j, k)` to world coordinates through an affine with bottom row
/// `(0, 0, 0, 1)` and mapping the result back through any inverse of
/// that affine recovers `(i, j, k)` exactly.
pub proof fn lemma_affine_round_trip(
    a: AffineMatrix, b: AffineMatrix, i: int, j: int, k: int,
    wx: Rat, wy: Rat, wz: Rat,
    vx: Rat, vy: Rat, vz: Rat,
)
    requires
        a.wf(),
        b.wf(),
        is_inverse(b, a),
        rat_eqv(a.ent(3, 0), rat_of_int(0)),
        rat_eqv(a.ent(3, 1), rat_of_int(0)),
        rat_eqv(a.ent(3, 2), rat_of_int(0)),
        rat_eqv(a.ent(3, 3), rat_of_int(1)),
        rat_wf(wx),
        rat_wf(wy),
        rat_wf(wz),
        rat_wf(vx),
        rat_wf(vy),
        rat_wf(vz),
        rat_eqv(wx, spec_apply_row(a, 0, rat_of_int(i), rat_of_int(j), rat_of_int(k))),
        rat_eqv(wy, spec_apply_row(a, 1, rat_of_int(i), rat_of_int(j), rat_of_int(k))),
        rat_eqv(wz, spec_apply_row(a, 2, rat_of_int(i), rat_of_int(j), rat_of_int(k))),
        rat_eqv(vx, spec_apply_row(b, 0, wx, wy, wz)),
        rat_eqv(vy, spec_apply_row(b, 1, wx, wy, wz)),
        rat_eqv(vz, spec_apply_row(b, 2, wx, wy, wz)),
    ensures
        rat_eqv(vx, rat_of_int(i)),
        rat_eqv(vy, rat_of_int(j)),
        rat_eqv(vz, rat_of_int(k)),
{
    lemma_round_trip_axis(a, b, 0, i, j, k, wx, wy, wz);
    lemma_round_trip_axis(a, b, 1, i, j, k, wx, wy, wz);
    lemma_round_trip_axis(a, b, 2, i, j, k, wx, wy, wz);
    lemma_apply_row_wf(b, 0, wx, wy, wz);
    lemma_apply_row_wf(b, 1, wx, wy, wz);
    lemma_apply_row_wf(b, 2, wx, wy, wz);
    lemma_eqv_trans(vx, spec_apply_row(b, 0, wx, wy, wz), rat_of_int(i));
    lemma_eqv_trans(vy, spec_apply_row(b, 1, wx, wy, wz), rat_of_int(j));
    lemma_eqv_trans(vz, spec_apply_row(b, 2, wx, wy, wz), rat_of_int(k));
}

/// One axis of the round trip: applying an inverse of `a` to the exact
/// world coordinates of `(i, j, k)` gives back that axis's index.
proof fn lemma_round_trip_axis(
    a: AffineMatrix, b: AffineMatrix, r: int, i: int, j: int, k: int,
    wx: Rat, wy: Rat, wz: Rat,
)
    requires
        a.wf(),
        b.wf(),
        is_inverse(b, a),
        0 <= r < 3,
        rat_eqv(a.ent(3, 0), rat_of_int(0)),
        rat_eqv(a.ent(3, 1), rat_of_int(0)),
        rat_eqv(a.ent(3, 2), rat_of_int(0)),
        rat_eqv(a.ent(3, 3), rat_of_int(1)),
        rat_wf(wx),
        rat_wf(wy),
        rat_wf(wz),
        rat_eqv(wx, spec_apply_row(a, 0, rat_of_int(i), rat_of_int(j), rat_of_int(k))),
        rat_eqv(wy, spec_apply_row(a, 1, rat_of_int(i), rat_of_int(j), rat_of_int(k))),
        rat_eqv(wz, spec_apply_row(a, 2, rat_of_int(i), rat_of_int(j), rat_of_int(k))),
    ensures
        rat_eqv(
            spec_apply_row(b, r, wx, wy, wz),
            rat_of_int(if r == 0 { i } else if r == 1 { j } else { k }),
        ),
{
    let x = rat_of_int(i);
    let y = rat_of_int(j);
    let z = rat_of_int(k);
    let one = rat_of_int(1);
    let w0 = spec_apply_row(a, 0, x, y, z);
    let w1 = spec_apply_row(a, 1, x, y, z);
    let w2 = spec_apply_row(a, 2, x, y, z);
    lemma_apply_row_wf(a, 0, x, y, z);
    lemma_apply_row_wf(a, 1, x, y, z);
    lemma_apply_row_wf(a, 2, x, y, z);
    lemma_dot4_compat_right(
        b.ent(r, 0), b.ent(r, 1), b.ent(r, 2), b.ent(r, 3),
        wx, wy, wz, one,
        w0, w1, w2, one,
    );
    lemma_apply_compose(b, a, r, x, y, z);
    lemma_mm_ent_wf(b, a, r, 0);
    lemma_mm_ent_wf(b, a, r, 1);
    lemma_mm_ent_wf(b, a, r, 2);
    lemma_mm_ent_wf(b, a, r, 3);
    lemma_dot4_unit(
        spec_mm_ent(b, a, r, 0), spec_mm_ent(b, a, r, 1),
        spec_mm_ent(b, a, r, 2), spec_mm_ent(b, a, r, 3),
        x, y, z, one, r,
    );
    lemma_apply_row_wf(b, r, wx, wy, wz);
    lemma_apply_row_wf(b, r, w0, w1, w2);
    lemma_dot4_wf(
        spec_mm_ent(b, a, r, 0), spec_mm_ent(b, a, r, 1),
        spec_mm_ent(b, a, r, 2), spec_mm_ent(b, a, r, 3),
        x, y, z, one,
    );
    lemma_eqv_trans(
        spec_apply_row(b, r, wx, wy, wz),
        spec_apply_row(b, r, w0, w1, w2),
        spec_dot4(
            spec_mm_ent(b, a, r, 0), spec_mm_ent(b, a, r, 1),
            spec_mm_ent(b, a, r, 2), spec_mm_ent(b, a, r, 3),
            x, y, z, one,
        ),
    );
    lemma_eqv_trans(
        spec_apply_row(b, r, wx, wy, wz),
        spec_dot4(
            spec_mm_ent(b, a, r, 0), spec_mm_ent(b, a, r, 1),
            spec_mm_ent(b, a, r, 2), spec_mm_ent(b, a, r, 3),
            x, y, z, one,
        ),
        rat_of_int(if r == 0 { i } else if r == 1 { j } else { k }),
    );
}

/// A sum whose second term equals zero keeps the first term's value.
proof fn lemma_add_keep_left(x: Rat, y: Rat, v: Rat)
    requires
        rat_wf(x),
        rat_wf(y),
        rat_wf(v),
        rat_eqv(x, v),
        rat_eqv(y, rat_of_int(0)),
    ensures
        rat_eqv(rat_add(x, y), v),
        rat_wf(rat_add(x, y)),
{
    lemma_add_wf(x, y);
    lemma_add_compat(x, v, y, rat_of_int(0));
    lemma_add_wf(v, rat_of_int(0));
    lemma_add_zero_right(v, rat_of_int(0));
    lemma_eqv_trans(rat_add(x, y), rat_add(v, rat_of_int(0)), v);
}

/// A sum whose first term equals zero keeps the second term's value.
proof fn lemma_add_keep_right(x: Rat, y: Rat, v: Rat)
    requires
        rat_wf(x),
        rat_wf(y),
        rat_wf(v),
        rat_eqv(x, rat_of_int(0)),
        rat_eqv(y, v),
    ensures
        rat_eqv(rat_add(x, y), v),
        rat_wf(rat_add(x, y)),
{
    lemma_add_wf(x, y);
    lemma_add_compat(x, rat_of_int(0), y, v);
    lemma_add_wf(rat_of_int(0), v);
    lemma_add_zero_left(rat_of_int(0), v);
    lemma_eqv_trans(rat_add(x, y), rat_add(rat_of_int(0), v), v);
}

/// A four-term inner product against a unit row — left factors equal to
/// zero except for a one in position `sel` — picks out the right factor
/// in position `sel`.
pub proof fn lemma_dot4_unit(
    m0: Rat, m1: Rat, m2: Rat, m3: Rat,
    q0: Rat, q1: Rat, q2: Rat, q3: Rat,
    sel: int,
)
    requires
        rat_wf(m0), rat_wf(m1), rat_wf(m2), rat_wf(m3),
        rat_wf(q0), rat_wf(q1), rat_wf(q2), rat_wf(q3),
        0 <= sel < 4,
        rat_eqv(m0, rat_of_int(if sel == 0 { 1int } else { 0int })),
        rat_eqv(m1, rat_of_int(if sel == 1 { 1int } else { 0int })),
        rat_eqv(m2, rat_of_int(if sel == 2 { 1int } else { 0int })),
        rat_eqv(m3, rat_of_int(if sel == 3 { 1int } else { 0int })),
    ensures
        rat_eqv(
            spec_dot4(m0, m1, m2, m3, q0, q1, q2, q3),
            if sel == 0 { q0 } else if sel == 1 { q1 } else if sel == 2 { q2 } else { q3 },
        ),
{
    let t0 = rat_mul(m0, q0);
    let t1 = rat_mul(m1, q1);
    let t2 = rat_mul(m2, q2);
    let t3 = rat_mul(m3, q3);
    lemma_mul_wf(m0, q0);
    lemma_mul_wf(m1, q1);
    lemma_mul_wf(m2, q2);
    lemma_mul_wf(m3, q3);
    if sel == 0 {
        lemma_mul_one_left(m0, q0);
        lemma_mul_zero_left(m1, q1);
        lemma_mul_zero_left(m2, q2);
        lemma_mul_zero_left(m3, q3);
        lemma_add_keep_left(t0, t1, q0);
        lemma_add_keep_left(rat_add(t0, t1), t2, q0);
        lemma_add_keep_left(rat_add(rat_add(t0, t1), t2), t3, q0);
    } else if sel == 1 {
        lemma_mul_zero_left(m0, q0);
        lemma_mul_one_left(m1, q1);
        lemma_mul_zero_left(m2, q2);
        lemma_mul_zero_left(m3, q3);
        lemma_add_keep_right(t0, t1, q1);
        lemma_add_keep_left(rat_add(t0, t1), t2, q1);
        lemma_add_keep_left(rat_add(rat_add(t0, t1), t2), t3, q1);
    } else if sel == 2 {
        lemma_mul_zero_left(m0, q0);
        lemma_mul_zero_left(m1, q1);
        lemma_mul_one_left(m2, q2);
        lemma_mul_zero_left(m3, q3);
        lemma_add_keep_left(t0, t1, rat_of_int(0));
        lemma_add_keep_right(rat_add(t0, t1), t2, q2);
        lemma_add_keep_left(rat_add(rat_add(t0, t1), t2), t3, q2);
    } else {
        lemma_mul_zero_left(m0, q0);
        lemma_mul_zero_left(m1, q1);
        lemma_mul_zero_left(m2, q2);
        lemma_mul_one_left(m3, q3);
        lemma_add_keep_left(t0, t1, rat_of_int(0));
        lemma_add_keep_left(rat_add(t0, t1), t2, rat_of_int(0));
        lemma_add_keep_right(rat_add(rat_add(t0, t1), t2), t3, q3);
    }
}

/// A caller-evaluable bound on every step of the four-term inner
/// product's evaluation: the magnitude of each multiplication, of each
/// cross product formed while summing, and of each running numerator and
/// denominator stays representable. Under this bound the executable
/// inner product cannot overflow, whatever reduced forms its
/// intermediate results take, because reduction never increases a
/// numerator's magnitude or a denominator.
pub open spec fn dot4_fits(
    p0: Rat, p1: Rat, p2: Rat, p3: Rat,
    q0: Rat, q1: Rat, q2: Rat, q3: Rat,
) -> bool {
    let n0 = mag(p0.num) * mag(q0.num);
    let d0 = p0.den * q0.den;
    let n1 = mag(p1.num) * mag(q1.num);
    let d1 = p1.den * q1.den;
    let n2 = mag(p2.num) * mag(q2.num);
    let d2 = p2.den * q2.den;
    let n3 = mag(p3.num) * mag(q3.num);
    let d3 = p3.den * q3.den;
    let s1n = n0 * d1 + n1 * d0;
    let s1d = d0 * d1;
    let s2n = s1n * d2 + n2 * s1d;
    let s2d = s1d * d2;
    let s3n = s2n * d3 + n3 * s2d;
    &&& in_i128(n0) && in_i128(d0)
    &&& in_i128(n1) && in_i128(d1)
    &&& in_i128(n2) && in_i128(d2)
    &&& in_i128(n3) && in_i128(d3)
    &&& in_i128(n0 * d1) && in_i128(n1 * d0) && in_i128(s1n) && in_i128(s1d)
    &&& in_i128(s1n * d2) && in_i128(n2 * s1d) && in_i128(s2n) && in_i128(s2d)
    &&& in_i128(s2n * d3) && in_i128(n3 * s2d) && in_i128(s3n) && in_i128(s2d * d3)
}

/// The magnitude shadow of a four-term inner product: the same fold over
/// the inputs' shadows, bounding every representation the executable
/// product can take.
pub open spec fn dot4_sh(
    p0: Rat, p1: Rat, p2: Rat, p3: Rat,
    q0: Rat, q1: Rat, q2: Rat, q3: Rat,
) -> Rat {
    spec_dot4(
        mag_rat(p0), mag_rat(p1), mag_rat(p2), mag_rat(p3),
        mag_rat(q0), mag_rat(q1), mag_rat(q2), mag_rat(q3),
    )
}

/// Exact four-term inner product; `None` when a value leaves the
/// representable range, which [`dot4_fits`] rules out. A result is
/// bounded by the inputs' shadow fold.
fn dot4(
    p0: Ratio, p1: Ratio, p2: Ratio, p3: Ratio,
    q0: Ratio, q1: Ratio, q2: Ratio, q3: Ratio,
) -> (r: Option<Ratio>)
    requires
        p0.wf(), p1.wf(), p2.wf(), p3.wf(),
        q0.wf(), q1.wf(), q2.wf(), q3.wf(),
    ensures
        r matches Some(v) ==> v.wf()
            && rat_eqv(v@, spec_dot4(p0@, p1@, p2@, p3@, q0@, q1@, q2@, q3@)),
        dot4_fits(p0@, p1@, p2@, p3@, q0@, q1@, q2@, q3@) ==> r is Some,
        r matches Some(v) ==> dominated(v@, dot4_sh(p0@, p1@, p2@, p3@, q0@, q1@, q2@, q3@)),
{
    let ghost n0 = mag(p0@.num) * mag(q0@.num);
    let ghost d0 = p0@.den * q0@.den;
    let ghost n1 = mag(p1@.num) * mag(q1@.num);
    let ghost d1 = p1@.den * q1@.den;
    let ghost n2 = mag(p2@.num) * mag(q2@.num);
    let ghost d2 = p2@.den * q2@.den;
    let ghost n3 = mag(p3@.num) * mag(q3@.num);
    let ghost d3 = p3@.den * q3@.den;
    let ghost s1n = n0 * d1 + n1 * d0;
    let ghost s1d = d0 * d1;
    let ghost s2n = s1n * d2 + n2 * s1d;
    let ghost s2d = s1d * d2;
    proof {
        lemma_mag_mul(p0@.num, q0@.num);
        lemma_mag_mul(p1@.num, q1@.num);
        lemma_mag_mul(p2@.num, q2@.num);
        lemma_mag_mul(p3@.num, q3@.num);
        lemma_mul_strictly_positive(p0@.den, q0@.den);
        lemma_mul_strictly_positive(p1@.den, q1@.den);
        lemma_mul_strictly_positive(p2@.den, q2@.den);
        lemma_mul_strictly_positive(p3@.den, q3@.den);
        lemma_mul_strictly_positive(d0, d1);
        lemma_mul_strictly_positive(s1d, d2);
    }
    let t0 = match p0.mul(q0) {
        Some(v) => v,
        None => {
            proof {
                if dot4_fits(p0@, p1@, p2@, p3@, q0@, q1@, q2@, q3@) {
                    assert(false);
                }
            }
            return None;
        },
    };
    let t1 = match p1.mul(q1) {
        Some(v) => v,
        None => {
            proof {
                if dot4_fits(p0@, p1@, p2@, p3@, q0@, q1@, q2@, q3@) {
                    assert(false);
                }
            }
            return None;
        },
    };
    let t2 = match p2.mul(q2) {
        Some(v) => v,
        None => {
            proof {
                if dot4_fits(p0@, p1@, p2@, p3@, q0@, q1@, q2@, q3@) {
                    assert(false);
                }
            }
            return None;
        },
    };
    let t3 = match p3.mul(q3) {
        Some(v) => v,
        None => {
            proof {
                if dot4_fits(p0@, p1@, p2@, p3@, q0@, q1@, q2@, q3@) {
                    assert(false);
                }
            }
            return None;
        },
    };
    let s1 = match t0.add(t1) {
        Some(v) => v,
        None => {
            proof {
                if dot4_fits(p0@, p1@, p2@, p3@, q0@, q1@, q2@, q3@) {
                    lemma_mag_mul_pos(t0@.num, t1@.den);
                    lemma_mag_mul_pos(t1@.num, t0@.den);
                    lemma_mag_prod_le(mag(t0@.num), t1@.den, n0, d1);
                    lemma_mag_prod_le(mag(t1@.num), t0@.den, n1, d0);
                    lemma_mag_prod_le(t0@.den, t1@.den, d0, d1);
                    lemma_mul_strictly_positive(t0@.den, t1@.den);
                    assert(false);
                }
            }
            return None;
        },
    };
    proof {
        lemma_mul_wf(p0@, q0@);
        lemma_mul_wf(p1@, q1@);
        lemma_mul_wf(p2@, q2@);
        lemma_mul_wf(p3@, q3@);
        lemma_add_step(s1@, t0@, t1@, rat_mul(p0@, q0@), rat_mul(p1@, q1@));
    }
    proof {
        lemma_mag_prod_le(mag(t0@.num), t1@.den, n0, d1);
        lemma_mag_prod_le(mag(t1@.num), t0@.den, n1, d0);
        lemma_mag_prod_le(t0@.den, t1@.den, d0, d1);
    }
    let s2 = match s1.add(t2) {
        Some(v) => v,
        None => {
            proof {
                if dot4_fits(p0@, p1@, p2@, p3@, q0@, q1@, q2@, q3@) {
                    lemma_mag_mul_pos(s1@.num, t2@.den);
                    lemma_mag_mul_pos(t2@.num, s1@.den);
                    lemma_mag_prod_le(mag(s1@.num), t2@.den, s1n, d2);
                    lemma_mag_prod_le(mag(t2@.num), s1@.den, n2, s1d);
                    lemma_mag_prod_le(s1@.den, t2@.den, s1d, d2);
                    lemma_mul_strictly_positive(s1@.den, t2@.den);
                    assert(false);
                }
            }
            return None;
        },
    };
    proof {
        lemma_add_step(
            s2@, s1@, t2@,
            rat_add(rat_mul(p0@, q0@), rat_mul(p1@, q1@)),
            rat_mul(p2@, q2@),
        );
        lemma_mag_prod_le(mag(s1@.num), t2@.den, s1n, d2);
        lemma_mag_prod_le(mag(t2@.num), s1@.den, n2, s1d);
        lemma_mag_prod_le(s1@.den, t2@.den, s1d, d2);
    }
    let s3 = match s2.add(t3) {
        Some(v) => v,
        None => {
            proof {
                if dot4_fits(p0@, p1@, p2@, p3@, q0@, q1@, q2@, q3@) {
                    lemma_mag_mul_pos(s2@.num, t3@.den);
                    lemma_mag_mul_pos(t3@.num, s2@.den);
                    lemma_mag_prod_le(mag(s2@.num), t3@.den, s2n, d3);
                    lemma_mag_prod_le(mag(t3@.num), s2@.den, n3, s2d);
                    lemma_mag_prod_le(s2@.den, t3@.den, s2d, d3);
                    lemma_mul_strictly_positive(s2@.den, t3@.den);
                    assert(false);
                }
            }
            return None;
        },
    };
    proof {
        lemma_add_step(
            s3@, s2@, t3@,
            rat_add(rat_add(rat_mul(p0@, q0@), rat_mul(p1@, q1@)), rat_mul(p2@, q2@)),
            rat_mul(p3@, q3@),
        );
        lemma_mag_prod_le(mag(s2@.num), t3@.den, s2n, d3);
        lemma_mag_prod_le(mag(t3@.num), s2@.den, n3, s2d);
        lemma_mag_prod_le(s2@.den, t3@.den, s2d, d3);
        assert(dominated(s3@, dot4_sh(p0@, p1@, p2@, p3@, q0@, q1@, q2@, q3@)));
    }
    Some(s3)
}

/// Push one well-formed entry, keeping every entry well formed.
fn push_entry(v: &mut Vec<Ratio>, x: Ratio)
    requires
        x.wf(),
        forall|i: int| 0 <= i < old(v)@.len() ==> (#[trigger] old(v)@[i]).wf(),
    ensures
        final(v)@ == old(v)@.push(x),
        forall|i: int| 0 <= i < final(v)@.len() ==> (#[trigger] final(v)@[i]).wf(),
{
    v.push(x);
}

/// Stack an image header's three spatial rows on top of the constant row
/// `(0, 0, 0, 1)`. No validation is performed on the row contents: a
/// degenerate header yields a matrix whose inversion later fails.
pub fn get_affine(row_x: &Vec<Ratio>, row_y: &Vec<Ratio>, row_z: &Vec<Ratio>) -> (r: AffineMatrix)
    requires
        row_x@.len() == 4,
        row_y@.len() == 4,
        row_z@.len() == 4,
        forall|i: int| 0 <= i < 4 ==> (#[trigger] row_x@[i]).wf(),
        forall|i: int| 0 <= i < 4 ==> (#[trigger] row_y@[i]).wf(),
        forall|i: int| 0 <= i < 4 ==> (#[trigger] row_z@[i]).wf(),
    ensures
        r.wf(),
        forall|c: int| 0 <= c < 4 ==> r.ent(0, c) == row_x@[c]@,
        forall|c: int| 0 <= c < 4 ==> r.ent(1, c) == row_y@[c]@,
        forall|c: int| 0 <= c < 4 ==> r.ent(2, c) == row_z@[c]@,
        r.ent(3, 0) == rat_of_int(0),
        r.ent(3, 1) == rat_of_int(0),
        r.ent(3, 2) == rat_of_int(0),
        r.ent(3, 3) == rat_of_int(1),
{
    let mut m: Vec<Ratio> = Vec::new();
    push_entry(&mut m, row_x[0]);
    push_entry(&mut m, row_x[1]);
    push_entry(&mut m, row_x[2]);
    push_entry(&mut m, row_x[3]);
    push_entry(&mut m, row_y[0]);
    push_entry(&mut m, row_y[1]);
    push_entry(&mut m, row_y[2]);
    push_entry(&mut m, row_y[3]);
    push_entry(&mut m, row_z[0]);
    push_entry(&mut m, row_z[1]);
    push_entry(&mut m, row_z[2]);
    push_entry(&mut m, row_z[3]);
    push_entry(&mut m, Ratio::zero());
    push_entry(&mut m, Ratio::zero());
    push_entry(&mut m, Ratio::zero());
    push_entry(&mut m, Ratio::from_int(1));
    AffineMatrix { m }
}

/// The three spatial rows of an affine all satisfy [`dot4_fits`] at the
/// point `(x, y, z)`: the condition under which a coordinate transform
/// is owed a result.
pub open spec fn coord_fits(a: AffineMatrix, x: Rat, y: Rat, z: Rat) -> bool {
    &&& dot4_fits(a.ent(0, 0), a.ent(0, 1), a.ent(0, 2), a.ent(0, 3), x, y, z, rat_of_int(1))
    &&& dot4_fits(a.ent(1, 0), a.ent(1, 1), a.ent(1, 2), a.ent(1, 3), x, y, z, rat_of_int(1))
    &&& dot4_fits(a.ent(2, 0), a.ent(2, 1), a.ent(2, 2), a.ent(2, 3), x, y, z, rat_of_int(1))
}

/// Map the point `(x, y, z)` through the affine `affine`: the image's
/// world coordinates when `(x, y, z)` is a voxel index, or — with the
/// inverse affine — voxel coordinates when it is a world point. The only
/// failure is overflow of the exact representation, which cannot happen
/// when [`coord_fits`] holds.
pub fn coord_transform(x: Ratio, y: Ratio, z: Ratio, affine: &AffineMatrix)
    -> (r: Result<(Ratio, Ratio, Ratio), NirustError>)
    requires
        x.wf(),
        y.wf(),
        z.wf(),
        affine.wf(),
    ensures
        r matches Ok(w) ==> w.0.wf() && w.1.wf() && w.2.wf()
            && rat_eqv(w.0@, spec_apply_row(*affine, 0, x@, y@, z@))
            && rat_eqv(w.1@, spec_apply_row(*affine, 1, x@, y@, z@))
            && rat_eqv(w.2@, spec_apply_row(*affine, 2, x@, y@, z@)),
        r matches Err(e) ==> e == NirustError::ArithmeticOverflow,
        coord_fits(*affine, x@, y@, z@) ==> r is Ok,
{
    let wx = match apply_row(affine, 0, x, y, z) {
        Some(v) => v,
        None => return Err(NirustError::ArithmeticOverflow),
    };
    let wy = match apply_row(affine, 1, x, y, z) {
        Some(v) => v,
        None => return Err(NirustError::ArithmeticOverflow),
    };
    let wz = match apply_row(affine, 2, x, y, z) {
        Some(v) => v,
        None => return Err(NirustError::ArithmeticOverflow),
    };
    Ok((wx, wy, wz))
}

/// The shadow of one application component.
pub open spec fn apply_row_sh(a: AffineMatrix, r: int, x: Rat, y: Rat, z: Rat) -> Rat {
    dot4_sh(
        a.ent(r, 0), a.ent(r, 1), a.ent(r, 2), a.ent(r, 3),
        x, y, z, rat_of_int(1),
    )
}

/// One component of [`coord_transform`].
pub fn apply_row(a: &AffineMatrix, r: usize, x: Ratio, y: Ratio, z: Ratio) -> (res: Option<Ratio>)
    requires
        a.wf(),
        r < 4,
        x.wf(),
        y.wf(),
        z.wf(),
    ensures
        res matches Some(v) ==> v.wf()
            && rat_eqv(v@, spec_apply_row(*a, r as int, x@, y@, z@)),
        dot4_fits(
            a.ent(r as int, 0), a.ent(r as int, 1), a.ent(r as int, 2), a.ent(r as int, 3),
            x@, y@, z@, rat_of_int(1),
        ) ==> res is Some,
        res matches Some(v) ==> dominated(v@, apply_row_sh(*a, r as int, x@, y@, z@)),
{
    dot4(
        a.m[4 * r], a.m[4 * r + 1], a.m[4 * r + 2], a.m[4 * r + 3],
        x, y, z, Ratio::from_int(1),
    )
}

/// Every entry of a matrix product stays representable at every step.
pub open spec fn mm_fits(a: AffineMatrix, b: AffineMatrix) -> bool {
    forall|r: int, c: int| 0 <= r < 4 && 0 <= c < 4 ==>
        #[trigger] dot4_fits(
            a.ent(r, 0), a.ent(r, 1), a.ent(r, 2), a.ent(r, 3),
            b.ent(0, c), b.ent(1, c), b.ent(2, c), b.ent(3, c),
        )
}

/// Exact matrix product; `None` when a value leaves the representable
/// range, which [`mm_fits`] rules out.
pub fn mat_mul(a: &AffineMatrix, b: &AffineMatrix) -> (res: Option<AffineMatrix>)
    requires
        a.wf(),
        b.wf(),
    ensures
        res matches Some(p) ==> p.wf()
            && forall|r: int, c: int| 0 <= r < 4 && 0 <= c < 4 ==>
                rat_eqv(#[trigger] p.ent(r, c), spec_mm_ent(*a, *b, r, c)),
        mm_fits(*a, *b) ==> res is Some,
{
    let mut m: Vec<Ratio> = Vec::new();
    let mut j: usize = 0;
    while j < 16
        invariant
            a.wf(),
            b.wf(),
            j <= 16,
            m@.len() == j,
            forall|i: int| 0 <= i < j ==> (#[trigger] m@[i]).wf()
                && rat_eqv(m@[i]@, spec_mm_ent(*a, *b, i / 4, i % 4)),
        decreases 16 - j,
    {
        let r = j / 4;
        let c = j % 4;
        let d = dot4(
            a.m[4 * r], a.m[4 * r + 1], a.m[4 * r + 2], a.m[4 * r + 3],
            b.m[c], b.m[4 + c], b.m[8 + c], b.m[12 + c],
        );
        let v = match d {
            Some(v) => v,
            None => {
                proof {
                    if mm_fits(*a, *b) {
                        assert(dot4_fits(
                            a.ent(r as int, 0), a.ent(r as int, 1),
                            a.ent(r as int, 2), a.ent(r as int, 3),
                            b.ent(0, c as int), b.ent(1, c as int),
                            b.ent(2, c as int), b.ent(3, c as int),
                        ));
                        assert(false);
                    }
                }
                return None;
            },
        };
        m.push(v);
        j += 1;
    }
    let p = AffineMatrix { m };
    proof {
        assert forall|r: int, c: int| 0 <= r < 4 && 0 <= c < 4 implies
            rat_eqv(#[trigger] p.ent(r, c), spec_mm_ent(*a, *b, r, c)) by {
            lemma_quad_index(r, c);
        }
    }
    Some(p)
}

/// Whether every entry of `p` equals the identity matrix's, as a rational
/// value.
fn check_id(p: &AffineMatrix) -> (r: bool)
    requires
        p.wf(),
    ensures
        r ==> forall|i: int, j: int| 0 <= i < 4 && 0 <= j < 4 ==>
            rat_eqv(#[trigger] p.ent(i, j), spec_id_ent(i, j)),
{
    let mut k: usize = 0;
    while k < 16
        invariant
            p.wf(),
            k <= 16,
            forall|t: int| 0 <= t < k ==>
                rat_eqv((#[trigger] p.m@[t])@, spec_id_ent(t / 4, t % 4)),
        decreases 16 - k,
    {
        let e = p.m[k];
        let good = if k / 4 == k % 4 {
            e.num == e.den
        } else {
            e.num == 0
        };
        if !good {
            return false;
        }
        proof {
            let t = k as int;
            if t / 4 == t % 4 {
                assert(p.m@[t]@.num * 1 == 1 * p.m@[t]@.den) by (nonlinear_arith)
                    requires p.m@[t]@.num == p.m@[t]@.den;
            } else {
                assert(p.m@[t]@.num * 1 == 0 * p.m@[t]@.den) by (nonlinear_arith)
                    requires p.m@[t]@.num == 0;
            }
        }
        k += 1;
    }
    proof {
        assert forall|i: int, j: int| 0 <= i < 4 && 0 <= j < 4 implies
            rat_eqv(#[trigger] p.ent(i, j), spec_id_ent(i, j)) by {
            lemma_quad_index(i, j);
        }
    }
    true
}

/// The magnitude shadow of a 2 x 2 minor.
pub open spec fn minor_sh(a: Rat, b: Rat, c: Rat, d: Rat) -> Rat {
    rat_add(rat_mul(mag_rat(a), mag_rat(d)), rat_mul(mag_rat(b), mag_rat(c)))
}

/// Every step of a 2 x 2 minor stays representable.
pub open spec fn minor_fits(a: Rat, b: Rat, c: Rat, d: Rat) -> bool {
    &&& mul_fits(mag_rat(a), mag_rat(d))
    &&& mul_fits(mag_rat(b), mag_rat(c))
    &&& add_fits(rat_mul(mag_rat(a), mag_rat(d)), rat_mul(mag_rat(b), mag_rat(c)))
}

/// `a d - b c`, the shared shape of the 2 x 2 minors of the inversion.
fn minor(a: Ratio, b: Ratio, c: Ratio, d: Ratio) -> (r: Option<Ratio>)
    requires
        a.wf(),
        b.wf(),
        c.wf(),
        d.wf(),
    ensures
        r matches Some(v) ==> v.wf() && rat_eqv(v@, spec_minor(a@, b@, c@, d@)),
        minor_fits(a@, b@, c@, d@) ==> r is Some,
        r matches Some(v) ==> dominated(v@, minor_sh(a@, b@, c@, d@)),
{
    let t1 = match a.mul(d) {
        Some(v) => v,
        None => {
            proof {
                if minor_fits(a@, b@, c@, d@) {
                    lemma_mul_bounds(a@, d@, mag_rat(a@), mag_rat(d@));
                    assert(false);
                }
            }
            return None;
        },
    };
    let t2 = match b.mul(c) {
        Some(v) => v,
        None => {
            proof {
                if minor_fits(a@, b@, c@, d@) {
                    lemma_mul_bounds(b@, c@, mag_rat(b@), mag_rat(c@));
                    assert(false);
                }
            }
            return None;
        },
    };
    let s = match t1.sub(t2) {
        Some(v) => v,
        None => {
            proof {
                if minor_fits(a@, b@, c@, d@) {
                    lemma_add_bounds(
                        t1@, t2@,
                        rat_mul(mag_rat(a@), mag_rat(d@)),
                        rat_mul(mag_rat(b@), mag_rat(c@)),
                    );
                    assert(false);
                }
            }
            return None;
        },
    };
    proof {
        lemma_mul_wf(a@, d@);
        lemma_mul_wf(b@, c@);
        lemma_sub_step(s@, t1@, t2@, rat_mul(a@, d@), rat_mul(b@, c@));
        lemma_add_dom(
            t1@, t2@,
            rat_mul(mag_rat(a@), mag_rat(d@)),
            rat_mul(mag_rat(b@), mag_rat(c@)),
        );
        assert(dominated(s@, minor_sh(a@, b@, c@, d@)));
    }
    Some(s)
}

/// The magnitude shadow of the determinant computation.
pub open spec fn det_sh(m: AffineMatrix) -> Rat {
    rat_add(
        rat_add(
            rat_mul(mag_rat(m.ent(0, 0)), minor_sh(m.ent(1, 1), m.ent(1, 2), m.ent(2, 1), m.ent(2, 2))),
            rat_mul(mag_rat(m.ent(0, 1)), minor_sh(m.ent(1, 0), m.ent(1, 2), m.ent(2, 0), m.ent(2, 2))),
        ),
        rat_mul(mag_rat(m.ent(0, 2)), minor_sh(m.ent(1, 0), m.ent(1, 1), m.ent(2, 0), m.ent(2, 1))),
    )
}

/// Every step of the determinant computation stays representable: under
/// this bound the singularity test is always reached, so a singular
/// matrix is owed its `SingularMatrix` error.
pub open spec fn det_fits(m: AffineMatrix) -> bool {
    let sm0 = minor_sh(m.ent(1, 1), m.ent(1, 2), m.ent(2, 1), m.ent(2, 2));
    let sm1 = minor_sh(m.ent(1, 0), m.ent(1, 2), m.ent(2, 0), m.ent(2, 2));
    let sm2 = minor_sh(m.ent(1, 0), m.ent(1, 1), m.ent(2, 0), m.ent(2, 1));
    let su0 = rat_mul(mag_rat(m.ent(0, 0)), sm0);
    let su1 = rat_mul(mag_rat(m.ent(0, 1)), sm1);
    let su2 = rat_mul(mag_rat(m.ent(0, 2)), sm2);
    &&& minor_fits(m.ent(1, 1), m.ent(1, 2), m.ent(2, 1), m.ent(2, 2))
    &&& minor_fits(m.ent(1, 0), m.ent(1, 2), m.ent(2, 0), m.ent(2, 2))
    &&& minor_fits(m.ent(1, 0), m.ent(1, 1), m.ent(2, 0), m.ent(2, 1))
    &&& mul_fits(mag_rat(m.ent(0, 0)), sm0)
    &&& mul_fits(mag_rat(m.ent(0, 1)), sm1)
    &&& mul_fits(mag_rat(m.ent(0, 2)), sm2)
    &&& add_fits(su0, su1)
    &&& add_fits(rat_add(su0, su1), su2)
}

/// One translation component of the inverse: `-(i0 t0 + i1 t1 + i2 t2)`.
fn neg_dot3(i0: Ratio, i1: Ratio, i2: Ratio, t0: Ratio, t1: Ratio, t2: Ratio)
    -> (r: Option<Ratio>)
    requires
        i0.wf(), i1.wf(), i2.wf(),
        t0.wf(), t1.wf(), t2.wf(),
    ensures
        r matches Some(v) ==> v.wf(),
{
    let p0 = match i0.mul(t0) { Some(v) => v, None => return None };
    let p1 = match i1.mul(t1) { Some(v) => v, None => return None };
    let p2 = match i2.mul(t2) { Some(v) => v, None => return None };
    let s1 = match p0.add(p1) { Some(v) => v, None => return None };
    let s2 = match s1.add(p2) { Some(v) => v, None => return None };
    s2.neg()
}

/// Invert an affine matrix exactly.
///
/// On success the result is a proved two-sided inverse of the argument.
/// `SingularMatrix` is returned exactly when the determinant of the
/// spatial block is zero, and under [`det_fits`] a singular matrix is
/// owed that error. The only other failure is overflow of the exact
/// representation (also reported when, after an overflow-free computation,
/// the product check could not confirm the inverse, which exact arithmetic
/// does not produce). Because the inverse's correctness rests on that
/// runtime check rather than on a proof of the adjugate construction,
/// success itself is not owed by the contract.
pub fn invert(a: &AffineMatrix) -> (res: Result<AffineMatrix, NirustError>)
    requires
        a.wf(),
    ensures
        res matches Ok(b) ==> b.wf() && is_inverse(b, *a)
            && !rat_eqv(spec_det3(*a), rat_of_int(0)),
        res == Err::<AffineMatrix, NirustError>(NirustError::SingularMatrix)
            ==> rat_eqv(spec_det3(*a), rat_of_int(0)),
        res matches Err(e) ==> e == NirustError::SingularMatrix
            || e == NirustError::ArithmeticOverflow,
        det_fits(*a) && rat_eqv(spec_det3(*a), rat_of_int(0))
            ==> res == Err::<AffineMatrix, NirustError>(NirustError::SingularMatrix),
{
    let e00 = a.m[0]; let e01 = a.m[1]; let e02 = a.m[2]; let e03 = a.m[3];
    let e10 = a.m[4]; let e11 = a.m[5]; let e12 = a.m[6]; let e13 = a.m[7];
    let e20 = a.m[8]; let e21 = a.m[9]; let e22 = a.m[10]; let e23 = a.m[11];

    // The three minors of the first row, then the determinant.
    let m0 = match minor(e11, e12, e21, e22) {
        Some(v) => v, None => return Err(NirustError::ArithmeticOverflow),
    };
    let m1 = match minor(e10, e12, e20, e22) {
        Some(v) => v, None => return Err(NirustError::ArithmeticOverflow),
    };
    let m2 = match minor(e10, e11, e20, e21) {
        Some(v) => v, None => return Err(NirustError::ArithmeticOverflow),
    };
    let ghost sm0 = minor_sh(e11@, e12@, e21@, e22@);
    let ghost sm1 = minor_sh(e10@, e12@, e20@, e22@);
    let ghost sm2 = minor_sh(e10@, e11@, e20@, e21@);
    let ghost su0 = rat_mul(mag_rat(e00@), sm0);
    let ghost su1 = rat_mul(mag_rat(e01@), sm1);
    let ghost su2 = rat_mul(mag_rat(e02@), sm2);
    let u0 = match e00.mul(m0) {
        Some(v) => v,
        None => {
            proof {
                if det_fits(*a) {
                    lemma_mul_bounds(e00@, m0@, mag_rat(e00@), sm0);
                    assert(false);
                }
            }
            return Err(NirustError::ArithmeticOverflow);
        },
    };
    let u1 = match e01.mul(m1) {
        Some(v) => v,
        None => {
            proof {
                if det_fits(*a) {
                    lemma_mul_bounds(e01@, m1@, mag_rat(e01@), sm1);
                    assert(false);
                }
            }
            return Err(NirustError::ArithmeticOverflow);
        },
    };
    let u2 = match e02.mul(m2) {
        Some(v) => v,
        None => {
            proof {
                if det_fits(*a) {
                    lemma_mul_bounds(e02@, m2@, mag_rat(e02@), sm2);
                    assert(false);
                }
            }
            return Err(NirustError::ArithmeticOverflow);
        },
    };
    let d1 = match u0.sub(u1) {
        Some(v) => v,
        None => {
            proof {
                if det_fits(*a) {
                    lemma_mul_dom(e00@, m0@, mag_rat(e00@), sm0);
                    lemma_mul_dom(e01@, m1@, mag_rat(e01@), sm1);
                    lemma_add_bounds(u0@, u1@, su0, su1);
                    assert(false);
                }
            }
            return Err(NirustError::ArithmeticOverflow);
        },
    };
    let det = match d1.add(u2) {
        Some(v) => v,
        None => {
            proof {
                if det_fits(*a) {
                    lemma_mul_dom(e00@, m0@, mag_rat(e00@), sm0);
                    lemma_mul_dom(e01@, m1@, mag_rat(e01@), sm1);
                    lemma_mul_dom(e02@, m2@, mag_rat(e02@), sm2);
                    lemma_add_dom(u0@, u1@, su0, su1);
                    lemma_add_bounds(d1@, u2@, rat_add(su0, su1), su2);
                    assert(false);
                }
            }
            return Err(NirustError::ArithmeticOverflow);
        },
    };
    proof {
        lemma_minor_wf(e11@, e12@, e21@, e22@);
        lemma_minor_wf(e10@, e12@, e20@, e22@);
        lemma_minor_wf(e10@, e11@, e20@, e21@);
        lemma_mul_step(u0@, e00@, m0@, e00@, spec_minor(e11@, e12@, e21@, e22@));
        lemma_mul_step(u1@, e01@, m1@, e01@, spec_minor(e10@, e12@, e20@, e22@));
        lemma_mul_step(u2@, e02@, m2@, e02@, spec_minor(e10@, e11@, e20@, e21@));
        lemma_sub_step(
            d1@, u0@, u1@,
            rat_mul(e00@, spec_minor(e11@, e12@, e21@, e22@)),
            rat_mul(e01@, spec_minor(e10@, e12@, e20@, e22@)),
        );
        lemma_add_step(
            det@, d1@, u2@,
            rat_sub(
                rat_mul(e00@, spec_minor(e11@, e12@, e21@, e22@)),
                rat_mul(e01@, spec_minor(e10@, e12@, e20@, e22@)),
            ),
            rat_mul(e02@, spec_minor(e10@, e11@, e20@, e21@)),
        );
        assert(rat_eqv(det@, spec_det3(*a)));
    }
    if det.num == 0 {
        proof {
            assert(det@.num * 1 == 0 * det@.den) by (nonlinear_arith)
                requires det@.num == 0;
            lemma_eqv_trans(spec_det3(*a), det@, rat_of_int(0));
        }
        return Err(NirustError::SingularMatrix);
    }
    proof {
        assert(!rat_eqv(spec_det3(*a), rat_of_int(0))) by {
            if rat_eqv(spec_det3(*a), rat_of_int(0)) {
                lemma_eqv_trans(det@, spec_det3(*a), rat_of_int(0));
                assert(det@.num == 0) by (nonlinear_arith)
                    requires det@.num * 1 == 0 * det@.den;
            }
        }
    }

    // Adjugate over determinant for the spatial block.
    let i00 = match minor_div(e11, e12, e21, e22, det) {
        Some(v) => v, None => return Err(NirustError::ArithmeticOverflow),
    };
    let i01 = match minor_div(e02, e01, e22, e21, det) {
        Some(v) => v, None => return Err(NirustError::ArithmeticOverflow),
    };
    let i02 = match minor_div(e01, e02, e11, e12, det) {
        Some(v) => v, None => return Err(NirustError::ArithmeticOverflow),
    };
    let i10 = match minor_div(e12, e10, e22, e20, det) {
        Some(v) => v, None => return Err(NirustError::ArithmeticOverflow),
    };
    let i11 = match minor_div(e00, e02, e20, e22, det) {
        Some(v) => v, None => return Err(NirustError::ArithmeticOverflow),
    };
    let i12 = match minor_div(e02, e00, e12, e10, det) {
        Some(v) => v, None => return Err(NirustError::ArithmeticOverflow),
    };
    let i20 = match minor_div(e10, e11, e20, e21, det) {
        Some(v) => v, None => return Err(NirustError::ArithmeticOverflow),
    };
    let i21 = match minor_div(e01, e00, e21, e20, det) {
        Some(v) => v, None => return Err(NirustError::ArithmeticOverflow),
    };
    let i22 = match minor_div(e00, e01, e10, e11, det) {
        Some(v) => v, None => return Err(NirustError::ArithmeticOverflow),
    };
    let t0 = match neg_dot3(i00, i01, i02, e03, e13, e23) {
        Some(v) => v, None => return Err(NirustError::ArithmeticOverflow),
    };
    let t1 = match neg_dot3(i10, i11, i12, e03, e13, e23) {
        Some(v) => v, None => return Err(NirustError::ArithmeticOverflow),
    };
    let t2 = match neg_dot3(i20, i21, i22, e03, e13, e23) {
        Some(v) => v, None => return Err(NirustError::ArithmeticOverflow),
    };

    let mut m: Vec<Ratio> = Vec::new();
    push_entry(&mut m, i00); push_entry(&mut m, i01);
    push_entry(&mut m, i02); push_entry(&mut m, t0);
    push_entry(&mut m, i10); push_entry(&mut m, i11);
    push_entry(&mut m, i12); push_entry(&mut m, t1);
    push_entry(&mut m, i20); push_entry(&mut m, i21);
    push_entry(&mut m, i22); push_entry(&mut m, t2);
    push_entry(&mut m, Ratio::zero()); push_entry(&mut m, Ratio::zero());
    push_entry(&mut m, Ratio::zero()); push_entry(&mut m, Ratio::from_int(1));
    let b = AffineMatrix { m };

    // Confirm both products against the identity; with exact arithmetic the
    // adjugate construction cannot fail this, but the proof of the contract
    // rests on the check, not on the construction.
    let ba = match mat_mul(&b, a) {
        Some(p) => p, None => return Err(NirustError::ArithmeticOverflow),
    };
    if !check_id(&ba) {
        return Err(NirustError::ArithmeticOverflow);
    }
    let ab = match mat_mul(a, &b) {
        Some(p) => p, None => return Err(NirustError::ArithmeticOverflow),
    };
    if !check_id(&ab) {
        return Err(NirustError::ArithmeticOverflow);
    }
    proof {
        assert forall|r: int, c: int| 0 <= r < 4 && 0 <= c < 4 implies
            rat_eqv(#[trigger] spec_mm_ent(b, *a, r, c), spec_id_ent(r, c)) by {
            lemma_mm_ent_wf(b, *a, r, c);
            lemma_eqv_trans(spec_mm_ent(b, *a, r, c), ba.ent(r, c), spec_id_ent(r, c));
        }
        assert forall|r: int, c: int| 0 <= r < 4 && 0 <= c < 4 implies
            rat_eqv(#[trigger] spec_mm_ent(*a, b, r, c), spec_id_ent(r, c)) by {
            lemma_mm_ent_wf(*a, b, r, c);
            lemma_eqv_trans(spec_mm_ent(*a, b, r, c), ab.ent(r, c), spec_id_ent(r, c));
        }
    }
    Ok(b)
}

/// One adjugate entry `(a d - b c) / det`; contract-free beyond
/// well-formedness, since [`invert`] confirms the result by multiplication.
fn minor_div(a: Ratio, b: Ratio, c: Ratio, d: Ratio, det: Ratio) -> (r: Option<Ratio>)
    requires
        a.wf(), b.wf(), c.wf(), d.wf(), det.wf(),
    ensures
        r matches Some(v) ==> v.wf(),
{
    let m = match minor(a, b, c, d) { Some(v) => v, None => return None };
    m.div(det)
}

} // verus!
