use nirust::affine::{get_affine, AffineMatrix};
use nirust::error::NirustError;
use nirust::grid::{Sample, VoxelGrid};
use nirust::parcellation::{parcellate, parcellate_any, ParcellationResult};
use nirust::ratio::Ratio;
use nirust::statistics::voxelwise_tsnr;

fn q(num: i128, den: i128) -> Ratio {
    Ratio::new(num, den).unwrap()
}

fn row(a: i128, b: i128, c: i128, d: i128) -> Vec<Ratio> {
    vec![q(a, 1), q(b, 1), q(c, 1), q(d, 1)]
}

fn identity_affine() -> AffineMatrix {
    get_affine(&row(1, 0, 0, 0), &row(0, 1, 0, 0), &row(0, 0, 1, 0))
}

fn grid3(nx: usize, ny: usize, nz: usize, vals: Vec<i64>) -> VoxelGrid {
    assert_eq!(vals.len(), nx * ny * nz);
    VoxelGrid {
        nx,
        ny,
        nz,
        nt: 1,
        four_d: false,
        data: vals.into_iter().map(|v| Sample::Num(Ratio::from_int(v))).collect(),
    }
}

fn grid4(nx: usize, ny: usize, nz: usize, nt: usize, vals: Vec<i64>) -> VoxelGrid {
    assert_eq!(vals.len(), nx * ny * nz * nt);
    VoxelGrid {
        nx,
        ny,
        nz,
        nt,
        four_d: true,
        data: vals.into_iter().map(|v| Sample::Num(Ratio::from_int(v))).collect(),
    }
}

fn sample_is(s: Sample, v: i64) -> bool {
    match s {
        Sample::Num(r) => r.eqv_int(v),
        Sample::Undefined => false,
    }
}

#[test]
fn parcellate_two_regions_returns_their_means() {
    // Two disjoint regions of constant fill 5.0 and 9.0.
    let labels = grid3(4, 1, 1, vec![1, 1, 2, 2]);
    let signal = grid3(4, 1, 1, vec![5, 5, 9, 9]);
    match parcellate_any(&signal, &labels).unwrap() {
        ParcellationResult::Means(v) => {
            assert_eq!(v.len(), 2);
            assert!(sample_is(v[0], 5));
            assert!(sample_is(v[1], 9));
        },
        ParcellationResult::Series(_) => panic!("a 3-D signal yields means"),
    }
}

#[test]
fn parcellate_averages_within_regions() {
    let labels = grid3(4, 1, 1, vec![1, 1, 1, 2]);
    let signal = grid3(4, 1, 1, vec![1, 2, 6, 7]);
    match parcellate_any(&signal, &labels).unwrap() {
        ParcellationResult::Means(v) => {
            assert_eq!(v.len(), 2);
            // (1 + 2 + 6) / 3 = 3.
            assert!(sample_is(v[0], 3));
            assert!(sample_is(v[1], 7));
        },
        ParcellationResult::Series(_) => panic!("a 3-D signal yields means"),
    }
}

#[test]
fn parcellate_empty_region_is_an_error() {
    // The largest label is 2, so region 1 must exist; it has no voxels.
    let labels = grid3(4, 1, 1, vec![2, 2, 0, 0]);
    let signal = grid3(4, 1, 1, vec![5, 5, 9, 9]);
    assert!(matches!(
        parcellate_any(&signal, &labels).map(|_| ()),
        Err(NirustError::EmptyRegion)
    ));
}

#[test]
fn parcellate_4d_returns_time_series_per_region() {
    let labels = grid3(2, 1, 1, vec![1, 2]);
    // Voxel 0: timepoints [1, 3]; voxel 1: timepoints [10, 20].
    let signal = grid4(2, 1, 1, 2, vec![1, 3, 10, 20]);
    match parcellate_any(&signal, &labels).unwrap() {
        ParcellationResult::Series(rows) => {
            assert_eq!(rows.len(), 2);
            assert_eq!(rows[0].len(), 2);
            assert!(sample_is(rows[0][0], 1));
            assert!(sample_is(rows[0][1], 3));
            assert!(sample_is(rows[1][0], 10));
            assert!(sample_is(rows[1][1], 20));
        },
        ParcellationResult::Means(_) => panic!("a 4-D signal yields series"),
    }
}

#[test]
fn parcellate_with_matching_shapes_skips_resampling() {
    let a = identity_affine();
    let labels = grid3(4, 1, 1, vec![1, 1, 2, 2]);
    let signal = grid3(4, 1, 1, vec![5, 5, 9, 9]);
    match parcellate(&signal, &a, &labels, &a).unwrap() {
        ParcellationResult::Means(v) => {
            assert!(sample_is(v[0], 5));
            assert!(sample_is(v[1], 9));
        },
        ParcellationResult::Series(_) => panic!("a 3-D signal yields means"),
    }
}

#[test]
fn parcellate_resamples_label_volume_onto_signal_grid() {
    let a = identity_affine();
    // Labels on a coarser grid: nearest-neighbour lookup doubles them up.
    let labels = grid3(2, 1, 1, vec![1, 2]);
    let signal = grid3(4, 1, 1, vec![5, 5, 9, 9]);
    // Signal voxels at x = 0..3 sample labels at x clamped into [0, 1]:
    // labels [1, 2, 2, 2], so region 1 = {5}, region 2 = {5, 9, 9}.
    match parcellate(&signal, &a, &labels, &a).unwrap() {
        ParcellationResult::Means(v) => {
            assert_eq!(v.len(), 2);
            assert!(sample_is(v[0], 5));
            match v[1] {
                Sample::Num(r) => {
                    let third = Ratio::new(23, 3).unwrap();
                    assert!(r.lt(third) == Some(false) && third.lt(r) == Some(false));
                },
                Sample::Undefined => panic!("region 2 has members"),
            }
        },
        ParcellationResult::Series(_) => panic!("a 3-D signal yields means"),
    }
}

#[test]
fn tsnr_constant_slope_timepoints() {
    // Timepoints [2, 4, 6] at every voxel: mean 4, sample stddev 2,
    // temporal SNR exactly 2.
    let signal = grid4(1, 1, 2, 3, vec![2, 4, 6, 2, 4, 6]);
    let out = voxelwise_tsnr(&signal).unwrap();
    assert!(!out.four_d);
    assert!(sample_is(out.get3(0, 0, 0), 2));
    assert!(sample_is(out.get3(0, 0, 1), 2));
}

#[test]
fn tsnr_rejects_3d_grids() {
    let signal = grid3(2, 2, 2, vec![0; 8]);
    assert!(matches!(
        voxelwise_tsnr(&signal).map(|_| ()),
        Err(NirustError::RankMismatch)
    ));
}

#[test]
fn tsnr_zero_variance_voxel_is_undefined() {
    let signal = grid4(1, 1, 1, 3, vec![5, 5, 5]);
    let out = voxelwise_tsnr(&signal).unwrap();
    assert!(out.get3(0, 0, 0).is_undefined());
}

#[test]
fn tsnr_propagates_undefined_samples() {
    let mut signal = grid4(1, 1, 1, 3, vec![2, 4, 6]);
    signal.data[1] = Sample::Undefined;
    let out = voxelwise_tsnr(&signal).unwrap();
    assert!(matches!(out.get3(0, 0, 0), Sample::Undefined));
}
