use vstd::prelude::*;
use crate::diff_matrix::{cells_of, cols_of, DiffMatrix};
use crate::geometry::{max_int, min_int, rect, Rectangle};
use crate::labeling::{in_grid, scanned_before, value, Cell};

verus! {

pub open spec fn has_label(c: Seq<Seq<usize>>, cols: nat, label: usize, p: Cell) -> bool {
    in_grid(c, cols, p) && value(c, p) == label
}

pub open spec fn label_used(c: Seq<Seq<usize>>, cols: nat, label: usize) -> bool {
    exists|p: Cell| has_label(c, cols, label, p)
}

/// `r` is the smallest rectangle holding every cell with `label`: it holds them all,
/// and each of its four sides passes through one of them.
pub open spec fn is_bounding_box(c: Seq<Seq<usize>>, cols: nat, label: usize, r: Rectangle) -> bool {
    &&& r.is_proper()
    &&& forall|p: Cell| #[trigger] has_label(c, cols, label, p) ==> r.spec_contains_point(p.0, p.1)
    &&& exists|p: Cell| #[trigger] has_label(c, cols, label, p) && p.0 == r.min_point.x
    &&& exists|p: Cell| #[trigger] has_label(c, cols, label, p) && p.1 == r.min_point.y
    &&& exists|p: Cell| #[trigger] has_label(c, cols, label, p) && p.0 == r.max_point.x
    &&& exists|p: Cell| #[trigger] has_label(c, cols, label, p) && p.1 == r.max_point.y
}

/// The bounding rectangle of the cells with `label`, or the reserved empty rectangle
/// when no cell has it.
pub open spec fn bounding_box(c: Seq<Seq<usize>>, cols: nat, label: usize) -> Rectangle {
    if label_used(c, cols, label) {
        choose|r: Rectangle| is_bounding_box(c, cols, label, r)
    } else {
        Rectangle::spec_default()
    }
}

proof fn lemma_bounding_box_unique(c: Seq<Seq<usize>>, cols: nat, label: usize, r: Rectangle)
    requires
        is_bounding_box(c, cols, label, r),
    ensures
        label_used(c, cols, label),
        bounding_box(c, cols, label) == r,
{
    let p = choose|p: Cell| #[trigger] has_label(c, cols, label, p) && p.0 == r.min_point.x;
    assert(has_label(c, cols, label, p));
    let r2 = choose|r2: Rectangle| is_bounding_box(c, cols, label, r2);
    assert(is_bounding_box(c, cols, label, r2));
    let left = choose|p: Cell| #[trigger] has_label(c, cols, label, p) && p.0 == r2.min_point.x;
    let top = choose|p: Cell| #[trigger] has_label(c, cols, label, p) && p.1 == r2.min_point.y;
    let right = choose|p: Cell| #[trigger] has_label(c, cols, label, p) && p.0 == r2.max_point.x;
    let bottom = choose|p: Cell| #[trigger] has_label(c, cols, label, p) && p.1 == r2.max_point.y;
    let left2 = choose|p: Cell| #[trigger] has_label(c, cols, label, p) && p.0 == r.min_point.x;
    let top2 = choose|p: Cell| #[trigger] has_label(c, cols, label, p) && p.1 == r.min_point.y;
    let right2 = choose|p: Cell| #[trigger] has_label(c, cols, label, p) && p.0 == r.max_point.x;
    let bottom2 = choose|p: Cell| #[trigger] has_label(c, cols, label, p) && p.1 == r.max_point.y;
    assert(r.spec_contains_point(left.0, left.1) && r.spec_contains_point(top.0, top.1));
    assert(r.spec_contains_point(right.0, right.1) && r.spec_contains_point(bottom.0, bottom.1));
    assert(r2.spec_contains_point(left2.0, left2.1) && r2.spec_contains_point(top2.0, top2.1));
    assert(r2.spec_contains_point(right2.0, right2.1) && r2.spec_contains_point(bottom2.0, bottom2.1));
}

/// Widens `rectangle` just enough to hold the cell `(x, y)`.
pub fn update_rectangle_creation(rectangle: &mut Rectangle, x: usize, y: usize)
    ensures
        *final(rectangle) == rect(
            min_int(old(rectangle).min_point.x as int, x as int),
            min_int(old(rectangle).min_point.y as int, y as int),
            max_int(old(rectangle).max_point.x as int, x as int),
            max_int(old(rectangle).max_point.y as int, y as int),
        ),
{
    if x < rectangle.min_point.x {
        rectangle.min_point.x = x;
    }
    if x > rectangle.max_point.x {
        rectangle.max_point.x = x;
    }
    if y < rectangle.min_point.y {
        rectangle.min_point.y = y;
    }
    if y > rectangle.max_point.y {
        rectangle.max_point.y = y;
    }
}

pub open spec fn box_so_far(c: Seq<Seq<usize>>, cols: nat, label: usize, r: Rectangle, found: bool, x: int, y: int) -> bool {
    if found {
        &&& r.is_proper()
        &&& forall|p: Cell| #[trigger] has_label(c, cols, label, p) && scanned_before(p, x, y)
            ==> r.spec_contains_point(p.0, p.1)
        &&& exists|p: Cell| #[trigger] has_label(c, cols, label, p) && p.0 == r.min_point.x
        &&& exists|p: Cell| #[trigger] has_label(c, cols, label, p) && p.1 == r.min_point.y
        &&& exists|p: Cell| #[trigger] has_label(c, cols, label, p) && p.0 == r.max_point.x
        &&& exists|p: Cell| #[trigger] has_label(c, cols, label, p) && p.1 == r.max_point.y
    } else {
        &&& r == Rectangle::spec_default()
        &&& forall|p: Cell| #[trigger] has_label(c, cols, label, p) ==> !scanned_before(p, x, y)
    }
}

/// The bounding rectangle of the cells that hold `label`.
pub fn create_rectangle(m: &DiffMatrix, label: usize) -> (r: Rectangle)
    requires
        m.wf(),
    ensures
        r == bounding_box(cells_of(*m), cols_of(*m), label),
        label_used(cells_of(*m), cols_of(*m), label) ==> is_bounding_box(cells_of(*m), cols_of(*m), label, r),
{
    let ghost c = cells_of(*m);
    let ghost cols = cols_of(*m);
    let mut rectangle = Rectangle::create_default();
    let ghost mut found = false;
    let rows = m.nrows();
    let width = m.ncols();
    let mut y: usize = 0;
    while y < rows
        invariant
            m.wf(),
            c == cells_of(*m),
            cols == cols_of(*m),
            rows == c.len(),
            width == cols,
            y <= rows,
            box_so_far(c, cols, label, rectangle, found, 0, y as int),
        decreases rows - y,
    {
        let mut x: usize = 0;
        while x < width
            invariant
                m.wf(),
                c == cells_of(*m),
                cols == cols_of(*m),
                rows == c.len(),
                width == cols,
                y < rows,
                x <= width,
                box_so_far(c, cols, label, rectangle, found, x as int, y as int),
            decreases width - x,
        {
            if m.get(y, x) == label {
                let ghost old_r = rectangle;
                let ghost q: Cell = (x as int, y as int);
                update_rectangle_creation(&mut rectangle, x, y);
                proof {
                    assert(has_label(c, cols, label, q));
                    if !found {
                        assert forall|p: Cell| #[trigger] has_label(c, cols, label, p) && scanned_before(p, x + 1, y as int)
                            implies rectangle.spec_contains_point(p.0, p.1) by {
                            assert(!scanned_before(p, x as int, y as int));
                        }
                    } else {
                        let left = choose|p: Cell| #[trigger] has_label(c, cols, label, p) && p.0 == old_r.min_point.x;
                        let top = choose|p: Cell| #[trigger] has_label(c, cols, label, p) && p.1 == old_r.min_point.y;
                        let right = choose|p: Cell| #[trigger] has_label(c, cols, label, p) && p.0 == old_r.max_point.x;
                        let bottom = choose|p: Cell| #[trigger] has_label(c, cols, label, p) && p.1 == old_r.max_point.y;
                        assert(has_label(c, cols, label, left) && has_label(c, cols, label, top));
                        assert(has_label(c, cols, label, right) && has_label(c, cols, label, bottom));
                    }
                    found = true;
                }
            } else {
                proof {
                    assert(!has_label(c, cols, label, (x as int, y as int)));
                    if found {
                        assert forall|p: Cell| #[trigger] has_label(c, cols, label, p) && scanned_before(p, x + 1, y as int)
                            implies rectangle.spec_contains_point(p.0, p.1) by {
                            assert(scanned_before(p, x as int, y as int));
                        }
                    }
                }
            }
            x = x + 1;
        }
        proof {
            if found {
                assert forall|p: Cell| #[trigger] has_label(c, cols, label, p) && scanned_before(p, 0, y + 1)
                    implies rectangle.spec_contains_point(p.0, p.1) by {
                    assert(scanned_before(p, width as int, y as int));
                }
            } else {
                assert forall|p: Cell| #[trigger] has_label(c, cols, label, p) implies !scanned_before(p, 0, y + 1) by {
                    assert(!scanned_before(p, width as int, y as int));
                }
            }
        }
        y = y + 1;
    }
    proof {
        if found {
            assert forall|p: Cell| #[trigger] has_label(c, cols, label, p) implies rectangle.spec_contains_point(p.0, p.1) by {
                assert(scanned_before(p, 0, y as int));
            }
            lemma_bounding_box_unique(c, cols, label, rectangle);
        } else {
            assert(!label_used(c, cols, label));
            assert forall|p: Cell| !#[trigger] has_label(c, cols, label, p) by {
                if has_label(c, cols, label, p) {
                    assert(scanned_before(p, 0, y as int));
                }
            }
        }
    }
    rectangle
}

} // verus!
