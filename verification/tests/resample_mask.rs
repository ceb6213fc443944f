use nirust::affine::{get_affine, AffineMatrix};
use nirust::error::NirustError;
use nirust::grid::{Sample, VoxelGrid};
use nirust::masking::{find_x_origin, mask_hemi, parse_side, Side};
use nirust::ratio::Ratio;
use nirust::resample::resample_3d_nifti;

fn q(num: i128, den: i128) -> Ratio {
    Ratio::new(num, den).unwrap()
}

fn row(a: i128, b: i128, c: i128, d: i128) -> Vec<Ratio> {
    vec![q(a, 1), q(b, 1), q(c, 1), q(d, 1)]
}

fn identity_affine() -> AffineMatrix {
    get_affine(&row(1, 0, 0, 0), &row(0, 1, 0, 0), &row(0, 0, 1, 0))
}

fn grid3(nx: usize, ny: usize, nz: usize, vals: Vec<i64>) -> VoxelGrid {
    assert_eq!(vals.len(), nx * ny * nz);
    VoxelGrid {
        nx,
        ny,
        nz,
        nt: 1,
        four_d: false,
        data: vals.into_iter().map(|v| Sample::Num(Ratio::from_int(v))).collect(),
    }
}

fn sample_is(s: Sample, v: i64) -> bool {
    match s {
        Sample::Num(r) => r.eqv_int(v),
        Sample::Undefined => false,
    }
}

#[test]
fn resample_identity_reproduces_grid() {
    let a = identity_affine();
    let g = grid3(2, 2, 2, vec![0, 1, 2, 3, 4, 5, 6, 7]);
    let out = resample_3d_nifti(&g, &a, &a, 2, 2, 2).unwrap();
    let mut want: i64 = 0;
    for i in 0..2 {
        for j in 0..2 {
            for k in 0..2 {
                assert!(sample_is(out.get3(i, j, k), want));
                want += 1;
            }
        }
    }
}

#[test]
fn resample_larger_target_clamps_to_edge_voxels() {
    let a = identity_affine();
    let g = grid3(2, 1, 1, vec![10, 20]);
    let out = resample_3d_nifti(&g, &a, &a, 4, 1, 1).unwrap();
    assert!(sample_is(out.get3(0, 0, 0), 10));
    assert!(sample_is(out.get3(1, 0, 0), 20));
    // Indices past the source's extent take the edge voxel, not a blank.
    assert!(sample_is(out.get3(2, 0, 0), 20));
    assert!(sample_is(out.get3(3, 0, 0), 20));
}

#[test]
fn resample_translated_target_clamps_below() {
    let src_a = identity_affine();
    // The target's origin sits at world x = -2: its first two voxels fall
    // left of the source and take the source's first voxel.
    let tgt_a = get_affine(&row(1, 0, 0, -2), &row(0, 1, 0, 0), &row(0, 0, 1, 0));
    let g = grid3(2, 1, 1, vec![10, 20]);
    let out = resample_3d_nifti(&g, &src_a, &tgt_a, 4, 1, 1).unwrap();
    assert!(sample_is(out.get3(0, 0, 0), 10));
    assert!(sample_is(out.get3(1, 0, 0), 10));
    assert!(sample_is(out.get3(2, 0, 0), 10));
    assert!(sample_is(out.get3(3, 0, 0), 20));
}

#[test]
fn resample_rejects_singular_source_affine() {
    let z = row(0, 0, 0, 0);
    let singular = get_affine(&z, &z, &z);
    let a = identity_affine();
    let g = grid3(2, 1, 1, vec![1, 2]);
    assert!(matches!(
        resample_3d_nifti(&g, &singular, &a, 2, 1, 1).map(|_| ()),
        Err(NirustError::SingularMatrix)
    ));
}

#[test]
fn parse_side_accepts_exactly_left_and_right() {
    assert_eq!(parse_side(&String::from("left")), Ok(Side::Left));
    assert_eq!(parse_side(&String::from("right")), Ok(Side::Right));
    assert_eq!(
        parse_side(&String::from("up")),
        Err(NirustError::InvalidArgument)
    );
    assert_eq!(
        parse_side(&String::from("Left")),
        Err(NirustError::InvalidArgument)
    );
}

// World x of voxel (i, 0, 0) is i - 2, so the midline sits at index 2.
fn midline_affine() -> AffineMatrix {
    get_affine(&row(1, 0, 0, -2), &row(0, 1, 0, 0), &row(0, 0, 1, 0))
}

#[test]
fn find_x_origin_locates_midline() {
    let a = midline_affine();
    assert_eq!(find_x_origin(4, &a), Ok(2));
}

#[test]
fn find_x_origin_defaults_to_axis_length() {
    // Every voxel lies left of the midline.
    let a = get_affine(&row(1, 0, 0, -10), &row(0, 1, 0, 0), &row(0, 0, 1, 0));
    assert_eq!(find_x_origin(4, &a), Ok(4));
}

#[test]
fn mask_hemi_left_blanks_below_midline() {
    let a = midline_affine();
    let mut g = grid3(4, 1, 1, vec![1, 2, 3, 4]);
    let x0 = mask_hemi(&a, &mut g, Side::Left).unwrap();
    assert_eq!(x0, 2);
    assert!(matches!(g.get3(0, 0, 0), Sample::Undefined));
    assert!(matches!(g.get3(1, 0, 0), Sample::Undefined));
    assert!(sample_is(g.get3(2, 0, 0), 3));
    assert!(sample_is(g.get3(3, 0, 0), 4));
}

#[test]
fn mask_hemi_right_blanks_from_midline() {
    let a = midline_affine();
    let mut g = grid3(4, 1, 1, vec![1, 2, 3, 4]);
    let x0 = mask_hemi(&a, &mut g, Side::Right).unwrap();
    assert_eq!(x0, 2);
    assert!(sample_is(g.get3(0, 0, 0), 1));
    assert!(sample_is(g.get3(1, 0, 0), 2));
    assert!(matches!(g.get3(2, 0, 0), Sample::Undefined));
    assert!(matches!(g.get3(3, 0, 0), Sample::Undefined));
}

#[test]
fn mask_hemi_sides_partition_the_volume() {
    let a = midline_affine();
    let mut left = grid3(4, 1, 1, vec![1, 2, 3, 4]);
    let mut right = grid3(4, 1, 1, vec![1, 2, 3, 4]);
    mask_hemi(&a, &mut left, Side::Left).unwrap();
    mask_hemi(&a, &mut right, Side::Right).unwrap();
    for i in 0..4 {
        let l = left.get3(i, 0, 0);
        let r = right.get3(i, 0, 0);
        // Every voxel is blanked on exactly one side, and the other side
        // keeps the original value.
        match (l, r) {
            (Sample::Undefined, Sample::Num(v)) => assert!(v.eqv_int(i as i64 + 1)),
            (Sample::Num(v), Sample::Undefined) => assert!(v.eqv_int(i as i64 + 1)),
            _ => panic!("masks overlap or leave a gap at index {}", i),
        }
    }
}

#[test]
fn mask_hemi_masks_trailing_axes_of_4d_grids() {
    let a = midline_affine();
    let mut g = VoxelGrid {
        nx: 3,
        ny: 1,
        nz: 1,
        nt: 2,
        four_d: true,
        data: (0..6).map(|v| Sample::Num(Ratio::from_int(v))).collect(),
    };
    mask_hemi(&a, &mut g, Side::Left).unwrap();
    for t in 0..2 {
        assert!(matches!(g.get(0, 0, 0, t), Sample::Undefined));
        assert!(matches!(g.get(1, 0, 0, t), Sample::Undefined));
        assert!(matches!(g.get(2, 0, 0, t), Sample::Num(_)));
    }
}
