use image_compare::compare::{
    compare_grids, dimensions_are_equal, is_allowed_percent_of_different_pixels, populate_matrix,
    populate_rectangles, ComparisonConfig, ImageComparisonState,
};
use image_compare::geometry::{Point, Rectangle};
use image_compare::grid::{Pixel, PixelGrid};
use image_compare::labeling::{fill_region, group_regions, no_sub_overflow};
use image_compare::render::draw_rectangles;

fn white() -> Pixel {
    Pixel::new(255, 255, 255, 255)
}

fn black() -> Pixel {
    Pixel::new(0, 0, 0, 255)
}

fn red() -> Pixel {
    Pixel::new(255, 0, 0, 255)
}

fn plain(width: usize, height: usize) -> PixelGrid {
    PixelGrid::new(width, height, vec![white(); width * height]).unwrap()
}

fn with_marks(width: usize, height: usize, marks: &[(usize, usize)]) -> PixelGrid {
    let mut grid = plain(width, height);
    for &(x, y) in marks {
        grid.put_pixel(x, y, black());
    }
    grid
}

#[test]
fn identical_grids_match() {
    let a = with_marks(8, 6, &[(1, 1), (5, 4)]);
    let b = with_marks(8, 6, &[(1, 1), (5, 4)]);
    let result = compare_grids(&a, &b, &ComparisonConfig::default());
    assert_eq!(result.image_comparison_state, ImageComparisonState::Match);
    assert!(result.result_image.is_none());
}

#[test]
fn detection_is_symmetric() {
    let a = plain(8, 6);
    let b = with_marks(8, 6, &[(3, 2)]);
    let config = ComparisonConfig::default();
    let ab = compare_grids(&a, &b, &config);
    let ba = compare_grids(&b, &a, &config);
    assert_eq!(ab.image_comparison_state, ImageComparisonState::Mismatch);
    assert_eq!(ba.image_comparison_state, ImageComparisonState::Mismatch);
    assert!(ab.result_image.is_some());
    assert!(ba.result_image.is_some());
}

#[test]
fn size_mismatch_is_reported() {
    let a = plain(4, 4);
    let b = plain(4, 5);
    let result = compare_grids(&a, &b, &ComparisonConfig::default());
    assert_eq!(result.image_comparison_state, ImageComparisonState::SizeMismatch);
    assert!(result.result_image.is_none());
}

#[test]
fn below_threshold_differences_match() {
    let a = plain(10, 10);
    let b = with_marks(10, 10, &[(4, 4)]);
    let mut config = ComparisonConfig::default();
    config.allowed_difference_percent = 1;
    let result = compare_grids(&a, &b, &config);
    assert_eq!(result.image_comparison_state, ImageComparisonState::Match);
    config.allowed_difference_percent = 0;
    let result = compare_grids(&a, &b, &config);
    assert_eq!(result.image_comparison_state, ImageComparisonState::Mismatch);
}

#[test]
fn tolerance_percentage_formula() {
    assert!(is_allowed_percent_of_different_pixels(1, 100, 1));
    assert!(!is_allowed_percent_of_different_pixels(2, 100, 1));
    assert!(is_allowed_percent_of_different_pixels(0, 100, 0));
    assert!(!is_allowed_percent_of_different_pixels(1, 100, 0));
    assert!(is_allowed_percent_of_different_pixels(3, 6, 50));
}

#[test]
fn small_regions_are_filtered_out() {
    let a = plain(10, 10);
    let b = with_marks(10, 10, &[(4, 4)]);
    let mut config = ComparisonConfig::default();
    config.minimum_region_area = 2;
    assert_eq!(populate_rectangles(&a, &b, &config).len(), 0);
    let result = compare_grids(&a, &b, &config);
    assert_eq!(result.image_comparison_state, ImageComparisonState::Match);
    config.minimum_region_area = 1;
    let rectangles = populate_rectangles(&a, &b, &config);
    assert_eq!(rectangles, vec![Rectangle::create_with_coordinates(4, 4, 4, 4)]);
}

#[test]
fn matrix_marks_differing_pixels() {
    let a = plain(5, 3);
    let b = with_marks(5, 3, &[(4, 0), (2, 2)]);
    let (matrix, count) = populate_matrix(&a, &b);
    assert_eq!(count, 2);
    assert_eq!(matrix.width(), 5);
    assert_eq!(matrix.height(), 3);
    assert_eq!(matrix.value_at(4, 0), Some(1));
    assert_eq!(matrix.value_at(2, 2), Some(1));
    assert_eq!(matrix.value_at(0, 0), Some(0));
    assert_eq!(matrix.value_at(5, 0), None);
    assert_eq!(matrix.value_at(0, 3), None);
}

fn labels_of(marks: &[(usize, usize)], threshold: usize) -> (usize, Vec<usize>) {
    let a = plain(20, 12);
    let b = with_marks(20, 12, marks);
    let (mut matrix, _) = populate_matrix(&a, &b);
    let count = group_regions(&mut matrix, threshold);
    let labels = marks.iter().map(|&(x, y)| matrix.value_at(x, y).unwrap()).collect();
    (count, labels)
}

#[test]
fn gap_of_threshold_is_bridged() {
    let (count, labels) = labels_of(&[(1, 1), (6, 1)], 5);
    assert_eq!(count, 1);
    assert_eq!(labels, vec![2, 2]);
    let (count, labels) = labels_of(&[(1, 1), (1, 6)], 5);
    assert_eq!(count, 1);
    assert_eq!(labels, vec![2, 2]);
    let (count, labels) = labels_of(&[(1, 1), (6, 6)], 5);
    assert_eq!(count, 1);
    assert_eq!(labels, vec![2, 2]);
    let (count, labels) = labels_of(&[(7, 1), (2, 6)], 5);
    assert_eq!(count, 1);
    assert_eq!(labels, vec![2, 2]);
    let (count, labels) = labels_of(&[(2, 6), (7, 1)], 5);
    assert_eq!(count, 1);
    assert_eq!(labels, vec![2, 2]);
}

#[test]
fn gap_beyond_threshold_is_not_bridged() {
    let (count, labels) = labels_of(&[(1, 1), (7, 1)], 5);
    assert_eq!(count, 2);
    assert_eq!(labels, vec![2, 3]);
    let (count, labels) = labels_of(&[(1, 1), (1, 7)], 5);
    assert_eq!(count, 2);
    assert_eq!(labels, vec![2, 3]);
    let (count, labels) = labels_of(&[(1, 1), (3, 2)], 5);
    assert_eq!(count, 2);
    assert_eq!(labels, vec![2, 3]);
    let (count, labels) = labels_of(&[(8, 1), (2, 7)], 5);
    assert_eq!(count, 2);
    assert_eq!(labels, vec![2, 3]);
    let (count, labels) = labels_of(&[(1, 1), (7, 7)], 5);
    assert_eq!(count, 2);
    assert_eq!(labels, vec![2, 3]);
}

#[test]
fn chains_of_jumps_form_one_region() {
    let (count, labels) = labels_of(&[(1, 1), (4, 1), (4, 4), (8, 8), (19, 11)], 4);
    assert_eq!(count, 2);
    assert_eq!(labels, vec![2, 2, 2, 2, 3]);
}

#[test]
fn rectangles_bound_each_region() {
    let a = plain(20, 12);
    let b = with_marks(20, 12, &[(2, 3), (4, 5), (15, 1)]);
    let rectangles = populate_rectangles(&a, &b, &ComparisonConfig::default());
    assert_eq!(
        rectangles,
        vec![
            Rectangle::create_with_coordinates(15, 1, 15, 1),
            Rectangle::create_with_coordinates(2, 3, 4, 5),
        ]
    );
}

#[test]
fn outline_growth_skips_the_outline_leaving_the_image() {
    let actual = plain(4, 5);
    let rectangles = vec![Rectangle::create_with_coordinates(2, 2, 2, 2)];
    let image = draw_rectangles(&actual, &rectangles, red());
    assert_eq!(image.get_pixel(2, 2), red());
    assert_eq!(image.get_pixel(1, 1), red());
    assert_eq!(image.get_pixel(3, 3), red());
    assert_eq!(image.get_pixel(2, 1), red());
    assert_eq!(image.get_pixel(0, 0), white());
    assert_eq!(image.get_pixel(0, 4), white());
    assert_eq!(image.get_pixel(2, 4), white());
}

#[test]
fn outline_at_the_corner_grows_outward_only() {
    let actual = plain(6, 6);
    let rectangles = vec![Rectangle::create_with_coordinates(0, 0, 1, 1)];
    let image = draw_rectangles(&actual, &rectangles, red());
    assert_eq!(image.get_pixel(3, 0), red());
    assert_eq!(image.get_pixel(0, 3), red());
    assert_eq!(image.get_pixel(3, 3), red());
    assert_eq!(image.get_pixel(4, 0), white());
    assert_eq!(image.get_pixel(5, 5), white());
}

#[test]
fn mismatch_image_outlines_the_difference() {
    let a = plain(9, 9);
    let b = with_marks(9, 9, &[(4, 4)]);
    let result = compare_grids(&a, &b, &ComparisonConfig::default());
    assert_eq!(result.image_comparison_state, ImageComparisonState::Mismatch);
    let image = result.result_image.unwrap();
    assert_eq!(image.get_pixel(4, 4), red());
    assert_eq!(image.get_pixel(2, 2), red());
    assert_eq!(image.get_pixel(6, 4), red());
    assert_eq!(image.get_pixel(1, 1), white());
    assert_eq!(image.get_pixel(7, 7), white());
    assert_eq!(image.get_pixel(0, 4), white());
}

#[test]
fn rectangle_measures() {
    let r = Rectangle::create_with_coordinates(2, 3, 5, 4);
    assert_eq!(r.get_width(), 4);
    assert_eq!(r.get_height(), 2);
    assert_eq!(r.size(), 8);
    assert!(r.contains_point(&Point::new(5, 4)));
    assert!(!r.contains_point(&Point::new(6, 4)));
    assert!(r.out_of_bounds(5, 10));
    assert!(!r.out_of_bounds(6, 5));
    let m = r.merge(&Rectangle::create_with_coordinates(0, 7, 1, 8));
    assert!(m.equals(&Rectangle::create_with_coordinates(0, 3, 5, 8)));
    assert!(!r.is_overlapping(&Rectangle::create_with_coordinates(6, 3, 7, 4)));
    assert!(r.is_overlapping(&Rectangle::create_with_coordinates(5, 4, 7, 9)));
    let d = Rectangle::create_default();
    assert_eq!(d.min_point, Point::new(usize::MAX, usize::MAX));
    assert_eq!(d.max_point, Point::new(0, 0));
    assert!(Rectangle::create_zero().equals(&Rectangle::create_with_points(Point::new(0, 0), Point::new(0, 0))));
}

#[test]
fn point_steps_stop_at_the_edges() {
    let mut p = Point::new(0, 3);
    p.decrement();
    assert!(p.equals(&Point::new(0, 3)));
    p.increment();
    assert!(p.equals(&Point::new(1, 4)));
    p.decrement();
    assert!(p.equals(&Point::new(0, 3)));
    let mut q = Point::new(usize::MAX, 1);
    q.increment();
    assert!(q.equals(&Point::new(usize::MAX, 1)));
}

#[test]
fn subtraction_guard() {
    assert!(no_sub_overflow(3, 1, 2));
    assert!(!no_sub_overflow(3, 1, 3));
    assert!(!no_sub_overflow(0, 1, 0));
}

#[test]
fn dimension_check() {
    assert!(dimensions_are_equal(&(3, 4), &(3, 4)));
    assert!(!dimensions_are_equal(&(3, 4), &(4, 3)));
}

#[test]
fn grid_construction_checks_the_pixel_count() {
    assert!(PixelGrid::new(2, 2, vec![white(); 3]).is_none());
    assert!(PixelGrid::new(2, 2, vec![white(); 4]).is_some());
    assert!(PixelGrid::new(usize::MAX, 2, Vec::new()).is_none());
}

#[test]
fn grid_with_an_oversized_empty_side_is_refused() {
    assert!(PixelGrid::new(usize::MAX, 0, Vec::new()).is_none());
    assert!(PixelGrid::new(0, usize::MAX, Vec::new()).is_none());
    assert!(PixelGrid::new(0, 0, Vec::new()).is_some());
}

#[test]
fn empty_grids_match() {
    let a = PixelGrid::new(0, 0, Vec::new()).unwrap();
    let b = PixelGrid::new(0, 0, Vec::new()).unwrap();
    let result = compare_grids(&a, &b, &ComparisonConfig::default());
    assert_eq!(result.image_comparison_state, ImageComparisonState::Match);
}

#[test]
fn rejected_seed_leaves_the_matrix_unchanged() {
    let a = plain(5, 4);
    let b = with_marks(5, 4, &[(1, 1), (2, 2)]);
    let (mut matrix, _) = populate_matrix(&a, &b);
    fill_region(&mut matrix, 0, 0, 2, 5);
    fill_region(&mut matrix, 5, 1, 2, 5);
    fill_region(&mut matrix, 1, 4, 2, 5);
    for y in 0..4 {
        for x in 0..5 {
            let expected = if (x, y) == (1, 1) || (x, y) == (2, 2) { 1 } else { 0 };
            assert_eq!(matrix.value_at(x, y), Some(expected));
        }
    }
    fill_region(&mut matrix, 1, 1, 7, 5);
    assert_eq!(matrix.value_at(1, 1), Some(7));
    assert_eq!(matrix.value_at(2, 2), Some(7));
}

#[test]
fn width_and_height_need_only_their_own_axis() {
    let r = Rectangle::create_with_coordinates(2, 9, 5, 4);
    assert_eq!(r.get_width(), 4);
    let s = Rectangle::create_with_coordinates(9, 1, 4, 3);
    assert_eq!(s.get_height(), 3);
}

#[test]
fn default_configuration() {
    let config = ComparisonConfig::default();
    assert_eq!(config.jump_threshold, 5);
    assert_eq!(config.allowed_difference_percent, 0);
    assert_eq!(config.minimum_region_area, 1);
}
