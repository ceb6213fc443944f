use nirust::affine::{coord_transform, get_affine, invert, mat_mul, AffineMatrix};
use nirust::error::NirustError;
use nirust::ratio::Ratio;

fn q(num: i128, den: i128) -> Ratio {
    Ratio::new(num, den).unwrap()
}

fn row(a: i128, b: i128, c: i128, d: i128) -> Vec<Ratio> {
    vec![q(a, 1), q(b, 1), q(c, 1), q(d, 1)]
}

fn ratio_eq(a: Ratio, b: Ratio) -> bool {
    a.lt(b) == Some(false) && b.lt(a) == Some(false)
}

#[test]
fn ratio_new_rejects_zero_denominator() {
    assert_eq!(
        Ratio::new(1, 0).map(|_| ()),
        Err(NirustError::InvalidArgument)
    );
}

#[test]
fn ratio_new_normalizes_negative_denominator() {
    let a = q(1, -2);
    let b = q(-1, 2);
    assert!(ratio_eq(a, b));
}

#[test]
fn ratio_add_exact() {
    let s = q(1, 2).add(q(1, 3)).unwrap();
    assert!(ratio_eq(s, q(5, 6)));
}

#[test]
fn ratio_mul_exact() {
    let p = q(2, 3).mul(q(9, 4)).unwrap();
    assert!(ratio_eq(p, q(3, 2)));
}

#[test]
fn ratio_div_by_zero_is_none() {
    assert!(q(1, 2).div(q(0, 1)).is_none());
}

#[test]
fn ratio_floor_and_round() {
    assert_eq!(q(7, 2).floor(), 3);
    assert_eq!(q(-7, 2).floor(), -4);
    // Ties round up.
    assert_eq!(q(7, 2).round(), Some(4));
    assert_eq!(q(-7, 2).round(), Some(-3));
    assert_eq!(q(10, 3).round(), Some(3));
    assert_eq!(q(11, 3).round(), Some(4));
}

#[test]
fn ratio_eqv_int_exact() {
    assert!(q(10, 2).eqv_int(5));
    assert!(!q(11, 2).eqv_int(5));
}

fn example_affine() -> AffineMatrix {
    get_affine(
        &row(2, 0, 0, 1),
        &row(0, 3, 0, -2),
        &vec![q(0, 1), q(0, 1), q(1, 2), q(0, 1)],
    )
}

#[test]
fn coord_transform_applies_rows() {
    let a = example_affine();
    let (x, y, z) = coord_transform(q(3, 1), q(4, 1), q(5, 1), &a).unwrap();
    // (2*3 + 1, 3*4 - 2, 5/2)
    assert!(x.eqv_int(7));
    assert!(y.eqv_int(10));
    assert!(ratio_eq(z, q(5, 2)));
}

#[test]
fn invert_round_trips_voxel_coordinates() {
    let a = example_affine();
    let b = invert(&a).unwrap();
    let w = coord_transform(q(3, 1), q(4, 1), q(5, 1), &a).unwrap();
    let v = coord_transform(w.0, w.1, w.2, &b).unwrap();
    assert!(v.0.eqv_int(3));
    assert!(v.1.eqv_int(4));
    assert!(v.2.eqv_int(5));
}

#[test]
fn invert_composes_to_identity() {
    let a = example_affine();
    let b = invert(&a).unwrap();
    let p = mat_mul(&b, &a).unwrap();
    for r in 0..4usize {
        for c in 0..4usize {
            let e = p.m[4 * r + c];
            if r == c {
                assert!(e.eqv_int(1));
            } else {
                assert!(e.eqv_int(0));
            }
        }
    }
}

#[test]
fn ratio_ops_report_overflow_exactly_at_the_edge() {
    let top = Ratio::new(i128::MAX, 1).unwrap();
    // The sum of two maximal integers cannot be represented ...
    assert!(top.add(top).is_none());
    // ... while adding zero to one still can.
    assert!(top.add(q(0, 1)).is_some());
    assert!(top.mul(q(2, 1)).is_none());
    assert!(top.mul(q(1, 1)).is_some());
    // Negating the one unpaired value overflows; everything else doesn't.
    let bottom = Ratio::new(i128::MIN, 1).unwrap();
    assert!(bottom.neg().is_none());
    assert!(top.neg().is_some());
    // Rounding doubles the representation first.
    assert!(top.round().is_none());
    assert!(q(7, 2).round().is_some());
}

#[test]
fn coord_transform_reports_overflow() {
    // An entry at the edge of the representation overflows when scaled.
    let huge = Ratio::new(i128::MAX, 1).unwrap();
    let a = get_affine(
        &vec![huge, q(0, 1), q(0, 1), q(0, 1)],
        &row(0, 1, 0, 0),
        &row(0, 0, 1, 0),
    );
    assert_eq!(
        coord_transform(q(3, 1), q(0, 1), q(0, 1), &a).map(|_| ()),
        Err(NirustError::ArithmeticOverflow)
    );
}

#[test]
fn invert_rejects_singular_matrix() {
    let zero_row = row(0, 0, 0, 0);
    let a = get_affine(&zero_row, &zero_row, &zero_row);
    assert!(matches!(invert(&a), Err(NirustError::SingularMatrix)));
}
