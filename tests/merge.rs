use image_compare::geometry::Rectangle;
use image_compare::merging::merge_rectangles;

#[test]
fn merge_rectangles_same_coordinates() {
    let rectangle1: Rectangle = Rectangle::create_with_coordinates(1, 1, 3, 3);
    let rectangle2: Rectangle = Rectangle::create_with_coordinates(1, 1, 3, 3);
    let rectangle3: Rectangle = Rectangle::create_with_coordinates(1, 1, 3, 3);
    let rectangle4: Rectangle = Rectangle::create_with_coordinates(1, 1, 3, 3);
    let rectangles: Vec<Rectangle> = vec![rectangle1, rectangle2, rectangle3, rectangle4];
    let rectangles: Vec<Rectangle> = merge_rectangles(rectangles);
    assert_eq!(rectangles.len(), 1);
    let rectangle_expected: Rectangle = Rectangle::create_with_coordinates(1, 1, 3, 3);
    let rectangle_actual: Rectangle = rectangles[0];
    assert!(rectangle_expected.equals(&rectangle_actual));
}

#[test]
fn merge_rectangles_same_x() {
    let rectangle1: Rectangle = Rectangle::create_with_coordinates(1, 1, 3, 3);
    let rectangle2: Rectangle = Rectangle::create_with_coordinates(1, 2, 3, 4);
    let rectangle3: Rectangle = Rectangle::create_with_coordinates(1, 3, 3, 5);
    let rectangles: Vec<Rectangle> = vec![rectangle1, rectangle2, rectangle3];
    let rectangles: Vec<Rectangle> = merge_rectangles(rectangles);
    assert_eq!(rectangles.len(), 1);
    let rectangle_expected: Rectangle = Rectangle::create_with_coordinates(1, 1, 3, 5);
    let rectangle_actual: Rectangle = rectangles[0];
    assert!(rectangle_expected.equals(&rectangle_actual));
}

#[test]
fn merge_rectangles_same_y() {
    let rectangle1: Rectangle = Rectangle::create_with_coordinates(1, 1, 3, 2);
    let rectangle2: Rectangle = Rectangle::create_with_coordinates(2, 1, 4, 2);
    let rectangle3: Rectangle = Rectangle::create_with_coordinates(3, 1, 5, 2);
    let rectangles: Vec<Rectangle> = vec![rectangle1, rectangle2, rectangle3];
    let rectangles: Vec<Rectangle> = merge_rectangles(rectangles);
    assert_eq!(rectangles.len(), 1);
    let rectangle_expected: Rectangle = Rectangle::create_with_coordinates(1, 1, 5, 2);
    let rectangle_actual: Rectangle = rectangles[0];
    assert!(rectangle_expected.equals(&rectangle_actual));
}

#[test]
fn merge_rectangles_diagonal_overlap() {
    let rectangle1: Rectangle = Rectangle::create_with_coordinates(1, 1, 3, 3);
    let rectangle2: Rectangle = Rectangle::create_with_coordinates(3, 3, 5, 5);
    let rectangle3: Rectangle = Rectangle::create_with_coordinates(5, 5, 7, 7);
    let rectangles: Vec<Rectangle> = vec![rectangle1, rectangle2, rectangle3];
    let rectangles: Vec<Rectangle> = merge_rectangles(rectangles);
    assert_eq!(rectangles.len(), 1);
    let rectangle_expected: Rectangle = Rectangle::create_with_coordinates(1, 1, 7, 7);
    let rectangle_actual: Rectangle = rectangles[0];
    assert!(rectangle_expected.equals(&rectangle_actual));
}

#[test]
fn merge_rectangles_diagonal_no_overlap() {
    let rectangle1: Rectangle = Rectangle::create_with_coordinates(1, 1, 2, 2);
    let rectangle2: Rectangle = Rectangle::create_with_coordinates(3, 3, 4, 4);
    let rectangle3: Rectangle = Rectangle::create_with_coordinates(5, 5, 6, 6);
    let rectangles: Vec<Rectangle> = vec![rectangle1, rectangle2, rectangle3];
    let rectangles: Vec<Rectangle> = merge_rectangles(rectangles);
    assert_eq!(rectangles.len(), 3);
    assert!(rectangles[0].equals(&rectangle1));
    assert!(rectangles[1].equals(&rectangle2));
    assert!(rectangles[2].equals(&rectangle3));
}

#[test]
fn two_passes_can_leave_an_overlap() {
    let rectangles: Vec<Rectangle> = vec![
        Rectangle::create_with_coordinates(0, 0, 1, 1),
        Rectangle::create_with_coordinates(3, 0, 3, 0),
        Rectangle::create_with_coordinates(2, 2, 4, 4),
        Rectangle::create_with_coordinates(1, 1, 2, 2),
        Rectangle::create_with_coordinates(3, 0, 4, 1),
    ];
    let once = merge_rectangles(rectangles);
    assert_eq!(once.len(), 3);
    let twice = merge_rectangles(once);
    assert_eq!(twice.len(), 2);
    assert!(twice[0].equals(&Rectangle::create_with_coordinates(0, 0, 4, 4)));
    assert!(twice[1].equals(&Rectangle::create_with_coordinates(3, 0, 4, 1)));
    assert!(twice[0].is_overlapping(&twice[1]));
}

#[test]
fn merging_an_empty_list_gives_an_empty_list() {
    assert_eq!(merge_rectangles(Vec::new()).len(), 0);
}

#[test]
fn merged_output_is_stable_when_disjoint() {
    let rectangles: Vec<Rectangle> = vec![
        Rectangle::create_with_coordinates(1, 1, 3, 3),
        Rectangle::create_with_coordinates(3, 3, 5, 5),
        Rectangle::create_with_coordinates(10, 10, 12, 12),
    ];
    let once = merge_rectangles(merge_rectangles(rectangles));
    assert_eq!(once.len(), 2);
    let again = merge_rectangles(merge_rectangles(once.clone()));
    assert_eq!(again, once);
}
