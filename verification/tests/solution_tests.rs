use overview::solution::{
    decimation_factor, filter_colors_by_iblank, plan_coloring, surface_sample_indices, ColorScheme, ColoringError,
    ScalarField,
};
use overview::types::GridDimensions;

#[test]
fn test_scalar_field_from_str() {
    assert!(matches!(ScalarField::from_str("density"), Some(ScalarField::Density)));
    assert!(matches!(ScalarField::from_str("pressure"), Some(ScalarField::Pressure)));
    assert!(matches!(
        ScalarField::from_str("velocity_magnitude"),
        Some(ScalarField::VelocityMagnitude)
    ));
    assert!(ScalarField::from_str("invalid").is_none());
}

#[test]
fn scalar_field_names() {
    assert_eq!(ScalarField::from_str("momentum_x"), Some(ScalarField::MomentumX));
    assert_eq!(ScalarField::from_str("momentum_y"), Some(ScalarField::MomentumY));
    assert_eq!(ScalarField::from_str("momentum_z"), Some(ScalarField::MomentumZ));
    assert_eq!(ScalarField::from_str("energy"), Some(ScalarField::Energy));
    assert_eq!(ScalarField::from_str("Density"), None);
    assert_eq!(ScalarField::from_str(""), None);
}

#[test]
fn color_scheme_names() {
    assert_eq!(ColorScheme::from_str("viridis"), Some(ColorScheme::Viridis));
    assert_eq!(ColorScheme::from_str("turbo"), Some(ColorScheme::Turbo));
    assert_eq!(ColorScheme::from_str("rainbow"), Some(ColorScheme::Rainbow));
    assert_eq!(ColorScheme::from_str("hot"), Some(ColorScheme::Hot));
    assert_eq!(ColorScheme::from_str("grayscale"), Some(ColorScheme::Grayscale));
    assert_eq!(ColorScheme::from_str("jet"), None);
}

#[test]
fn decimation_thresholds() {
    assert_eq!(decimation_factor(10, 10), 1);
    assert_eq!(decimation_factor(250, 3), 1);
    assert_eq!(decimation_factor(251, 3), 2);
    assert_eq!(decimation_factor(3, 500), 2);
    assert_eq!(decimation_factor(501, 3), 3);
    assert_eq!(decimation_factor(1000, 1000), 3);
    assert_eq!(decimation_factor(2, 1001), 4);
}

#[test]
fn surface_samples_without_decimation_are_the_k1_plane() {
    let d = GridDimensions { i: 3, j: 2, k: 4 };
    assert_eq!(surface_sample_indices(d, 1), vec![0, 1, 2, 3, 4, 5]);
    // zero counts as one
    assert_eq!(surface_sample_indices(d, 0), vec![0, 1, 2, 3, 4, 5]);
}

#[test]
fn surface_samples_with_decimation() {
    let d = GridDimensions { i: 5, j: 3, k: 1 };
    // rows 0 and 2, columns 0, 2, 4
    assert_eq!(surface_sample_indices(d, 2), vec![0, 2, 4, 10, 12, 14]);
    let e = GridDimensions { i: 4, j: 4, k: 1 };
    // rows 0 and 3, columns 0 and 3
    assert_eq!(surface_sample_indices(e, 3), vec![0, 3, 12, 15]);
}

#[test]
fn surface_samples_lie_in_the_grid() {
    let d = GridDimensions { i: 7, j: 9, k: 2 };
    for dec in 1..5 {
        for idx in surface_sample_indices(d, dec) {
            assert!(idx < 7 * 9);
        }
    }
}

#[test]
fn plan_coloring_accepts_a_matching_pair() {
    let d = GridDimensions { i: 300, j: 10, k: 1 };
    let plan = plan_coloring(2, d, 2, d, "pressure", "hot", 3000).unwrap();
    assert_eq!(plan.field, ScalarField::Pressure);
    assert_eq!(plan.scheme, ColorScheme::Hot);
    assert_eq!(plan.decimation, 2);
}

#[test]
fn plan_coloring_errors_in_order() {
    let d = GridDimensions { i: 2, j: 2, k: 1 };
    let e = GridDimensions { i: 2, j: 2, k: 2 };
    assert_eq!(
        plan_coloring(0, d, 1, e, "nope", "nope", 0),
        Err(ColoringError::IndexMismatch { grid_index: 0, solution_index: 1 })
    );
    assert_eq!(
        plan_coloring(0, d, 0, e, "nope", "nope", 0),
        Err(ColoringError::DimensionMismatch { grid: d, solution: e })
    );
    assert_eq!(plan_coloring(0, d, 0, d, "nope", "nope", 0), Err(ColoringError::UnknownField));
    assert_eq!(plan_coloring(0, d, 0, d, "density", "nope", 0), Err(ColoringError::UnknownScheme));
    assert_eq!(
        plan_coloring(0, d, 0, d, "density", "viridis", 3),
        Err(ColoringError::PointCountMismatch { solution_points: 3, grid_points: 4 })
    );
}

#[test]
fn filter_colors_drops_blanked_points() {
    let d = GridDimensions { i: 2, j: 2, k: 1 };
    let iblank = vec![1, 0, 1, 1];
    let colors: Vec<f32> = (0..12).map(|x| x as f32).collect();
    let kept = filter_colors_by_iblank(&iblank, &colors, d, 1).unwrap();
    assert_eq!(kept, vec![0.0, 1.0, 2.0, 6.0, 7.0, 8.0, 9.0, 10.0, 11.0]);
}

#[test]
fn filter_colors_none_when_all_blanked() {
    let d = GridDimensions { i: 2, j: 1, k: 1 };
    let iblank = vec![0, 0];
    let colors = vec![1u8, 2, 3, 4, 5, 6];
    assert_eq!(filter_colors_by_iblank(&iblank, &colors, d, 1), None);
}

#[test]
fn filter_colors_with_decimation_and_short_colors() {
    let d = GridDimensions { i: 3, j: 1, k: 1 };
    let iblank = vec![1, 1, 1];
    // decimation 2 keeps columns 0 and 2; the second triple is incomplete
    let colors = vec![1u8, 2, 3, 4, 5];
    assert_eq!(filter_colors_by_iblank(&iblank, &colors, d, 2), Some(vec![1, 2, 3]));
}
