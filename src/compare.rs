use vstd::prelude::*;
use crate::diff_matrix::{cells_of, cols_of, shaped, DiffMatrix};
use crate::geometry::Rectangle;
use crate::grid::{lemma_index_in_range, Pixel, PixelGrid};
use crate::labeling::{group_regions, grouped, in_grid, scanned_before, value, Cell};
use crate::merging::{all_proper, covered_by, each_holds_one, holds_some, lies_in_some, merge_pass, merge_rectangles, pairwise_disjoint};
use crate::rectangles::{bounding_box, create_rectangle, has_label, is_bounding_box, label_used};
use crate::render::{draw_rectangles, painted};

verus! {

pub const DEFAULT_JUMP_THRESHOLD: usize = 5;

pub const DEFAULT_ALLOWED_DIFFERENCE_PERCENT: u32 = 0;

pub const DEFAULT_MINIMUM_REGION_AREA: usize = 1;

/// The parameters of one comparison.
#[derive(Debug, Clone, Copy, PartialEq, Eq, Structural)]
pub struct ComparisonConfig {
    /// The largest gap, in cells, bridged between two differing pixels of one region.
    pub jump_threshold: usize,
    /// Differences over at most this percentage of the pixels still count as a match.
    pub allowed_difference_percent: u32,
    /// Regions whose bounding rectangle has a smaller area are ignored.
    pub minimum_region_area: usize,
}

impl Default for ComparisonConfig {
    fn default() -> (r: ComparisonConfig)
        ensures
            r.jump_threshold == DEFAULT_JUMP_THRESHOLD,
            r.allowed_difference_percent == DEFAULT_ALLOWED_DIFFERENCE_PERCENT,
            r.minimum_region_area == DEFAULT_MINIMUM_REGION_AREA,
    {
        ComparisonConfig {
            jump_threshold: DEFAULT_JUMP_THRESHOLD,
            allowed_difference_percent: DEFAULT_ALLOWED_DIFFERENCE_PERCENT,
            minimum_region_area: DEFAULT_MINIMUM_REGION_AREA,
        }
    }
}

/// How a comparison ended.
#[derive(Debug, Clone, Copy, PartialEq, Eq, Structural)]
pub enum ImageComparisonState {
    FormatNotSupported,
    ColorTypeNotSupported,
    SizeMismatch,
    Mismatch,
    Match,
}

/// The outcome of a comparison, with the annotated image on a mismatch.
#[derive(Debug)]
pub struct ImageComparisonResult {
    pub image_comparison_state: ImageComparisonState,
    pub result_image: Option<PixelGrid>,
}

/// Opaque red, the colour of the drawn outlines.
pub fn outline_color() -> (p: Pixel)
    ensures
        p == (Pixel { r: 255, g: 0, b: 0, a: 255 }),
{
    Pixel { r: 255, g: 0, b: 0, a: 255 }
}

/// Both `(width, height)` pairs are the same.
pub fn dimensions_are_equal(first: &(u32, u32), second: &(u32, u32)) -> (r: bool)
    ensures
        r == (*first == *second),
{
    first.0 == second.0 && first.1 == second.1
}

/// The number of positions below `n` where the two pixel sequences differ.
pub open spec fn diff_count(e: Seq<Pixel>, a: Seq<Pixel>, n: nat) -> nat
    decreases n,
{
    if n == 0 {
        0
    } else {
        diff_count(e, a, (n - 1) as nat) + if e[n - 1] != a[n - 1] { 1nat } else { 0nat }
    }
}

/// The number of pixels at which the two grids differ.
pub open spec fn differing_pixels(expected: PixelGrid, actual: PixelGrid) -> nat {
    diff_count(expected.pixels@, actual.pixels@, expected.pixels@.len())
}

/// The difference mask: `1` where the pixels differ, `0` where they are equal.
pub open spec fn diff_cells(expected: PixelGrid, actual: PixelGrid) -> Seq<Seq<usize>> {
    Seq::new(
        expected.height as nat,
        |y: int|
            Seq::new(
                expected.width as nat,
                |x: int| if expected.pixel_at(x, y) != actual.pixel_at(x, y) { 1usize } else { 0usize },
            ),
    )
}

/// `count` differing pixels out of `total` are few enough to call the images equal.
pub open spec fn within_tolerance(count: int, total: int, allowed_percent: int) -> bool {
    count == 0 || 100 * count <= allowed_percent * total
}

pub open spec fn same_size(expected: PixelGrid, actual: PixelGrid) -> bool {
    expected.width == actual.width && expected.height == actual.height
}

proof fn lemma_same_cells(c: Seq<Seq<usize>>, target: Seq<Seq<usize>>, cols: nat)
    requires
        c.len() == target.len(),
        shaped(c, cols),
        shaped(target, cols),
        forall|p: Cell| in_grid(target, cols, p) ==> #[trigger] value(c, p) == value(target, p),
    ensures
        c == target,
{
    assert forall|yy: int| 0 <= yy < c.len() implies #[trigger] c[yy] =~= target[yy] by {
        assert forall|xx: int| 0 <= xx < cols implies c[yy][xx] == target[yy][xx] by {
            assert(value(c, (xx, yy)) == value(target, (xx, yy)));
        }
    }
    assert(c =~= target);
}

/// Compares the two grids pixel by pixel: returns the difference mask and the number
/// of differing pixels.
pub fn populate_matrix(expected: &PixelGrid, actual: &PixelGrid) -> (res: (DiffMatrix, usize))
    requires
        expected.wf(),
        actual.wf(),
        same_size(*expected, *actual),
    ensures
        res.0.wf(),
        cells_of(res.0) == diff_cells(*expected, *actual),
        cols_of(res.0) == expected.width,
        res.1 == differing_pixels(*expected, *actual),
        res.1 <= expected.width * expected.height,
        res.1 > 0 ==> exists|p: Cell| in_grid(cells_of(res.0), cols_of(res.0), p) && #[trigger] value(cells_of(res.0), p) == 1,
{
    let w = expected.width;
    let h = expected.height;
    proof {
        assert(h * w == w * h) by (nonlinear_arith);
    }
    let mut m = DiffMatrix::zeros(h, w);
    let mut count: usize = 0;
    let mut idx: usize = 0;
    let ghost mut wit: Cell = (0, 0);
    let ghost target = diff_cells(*expected, *actual);
    let mut y: usize = 0;
    while y < h
        invariant
            expected.wf(),
            actual.wf(),
            same_size(*expected, *actual),
            w == expected.width,
            h == expected.height,
            m.wf(),
            target == diff_cells(*expected, *actual),
            cells_of(m).len() == h,
            cols_of(m) == w,
            y <= h,
            idx == y * w,
            count <= idx,
            count == diff_count(expected.pixels@, actual.pixels@, idx as nat),
            count > 0 ==> in_grid(target, w as nat, wit) && value(target, wit) == 1 && value(cells_of(m), wit) == 1,
            forall|p: Cell|
                in_grid(target, w as nat, p) ==> #[trigger] value(cells_of(m), p) == if scanned_before(p, 0, y as int) {
                    value(target, p)
                } else {
                    0
                },
        decreases h - y,
    {
        let mut x: usize = 0;
        while x < w
            invariant
                expected.wf(),
                actual.wf(),
                same_size(*expected, *actual),
                w == expected.width,
                h == expected.height,
                m.wf(),
                target == diff_cells(*expected, *actual),
                cells_of(m).len() == h,
                cols_of(m) == w,
                y < h,
                x <= w,
                idx == y * w + x,
                count <= idx,
                count == diff_count(expected.pixels@, actual.pixels@, idx as nat),
                count > 0 ==> in_grid(target, w as nat, wit) && value(target, wit) == 1 && value(cells_of(m), wit) == 1,
                forall|p: Cell|
                    in_grid(target, w as nat, p) ==> #[trigger] value(cells_of(m), p) == if scanned_before(p, x as int, y as int) {
                        value(target, p)
                    } else {
                        0
                    },
            decreases w - x,
        {
            proof {
                lemma_index_in_range(x as int, y as int, w as int, h as int);
            }
            let ghost c = cells_of(m);
            let ghost q: Cell = (x as int, y as int);
            if expected.pixels[idx] != actual.pixels[idx] {
                m.set(y, x, 1);
                count = count + 1;
                proof {
                    wit = q;
                }
            }
            proof {
                assert(value(target, q) == if expected.pixels@[idx as int] != actual.pixels@[idx as int] { 1usize } else { 0usize });
                assert forall|p: Cell| in_grid(target, w as nat, p) implies #[trigger] value(cells_of(m), p) == if scanned_before(p, x + 1, y as int) {
                    value(target, p)
                } else {
                    0
                } by {
                    if p != q {
                        assert(value(cells_of(m), p) == value(c, p));
                    }
                }
            }
            idx = idx + 1;
            x = x + 1;
        }
        proof {
            assert((y + 1) * w == y * w + w) by (nonlinear_arith);
        }
        y = y + 1;
    }
    proof {
        if count > 0 {
            assert(in_grid(cells_of(m), cols_of(m), wit) && value(cells_of(m), wit) == 1);
        }
        assert(h * w == w * h) by (nonlinear_arith);
        assert forall|p: Cell| in_grid(target, w as nat, p) implies #[trigger] value(cells_of(m), p) == value(target, p) by {
            assert(scanned_before(p, 0, y as int));
        }
        lemma_same_cells(cells_of(m), target, w as nat);
    }
    (m, count)
}

/// `count` differing pixels out of `total` are at most `allowed_percent` percent.
pub fn is_allowed_percent_of_different_pixels(count: usize, total: usize, allowed_percent: u32) -> (r: bool)
    ensures
        r == (100 * count <= allowed_percent * total),
{
    let a = allowed_percent as u128;
    let t = total as u128;
    proof {
        assert(a * t <= 0x1_0000_0000u128 * 0x1_0000_0000_0000_0000u128) by (nonlinear_arith)
            requires a <= 0x1_0000_0000u128, t <= 0x1_0000_0000_0000_0000u128;
    }
    (count as u128) * 100 <= a * t
}

/// The bounding rectangles of labels `2 .. hi`, in label order, leaving out unused
/// labels and rectangles with an area below `min_area`.
pub open spec fn region_boxes(c: Seq<Seq<usize>>, cols: nat, hi: int, min_area: int) -> Seq<Rectangle>
    decreases hi,
{
    if hi <= 2 {
        Seq::empty()
    } else {
        let prev = region_boxes(c, cols, hi - 1, min_area);
        let b = bounding_box(c, cols, (hi - 1) as usize);
        if label_used(c, cols, (hi - 1) as usize) && b.spec_size() >= min_area {
            prev.push(b)
        } else {
            prev
        }
    }
}

/// The bounding rectangle of every region labeled `2 ..= region_count + 1` whose area
/// reaches `min_area`, in label order.
pub fn create_rectangles(m: &DiffMatrix, region_count: usize, min_area: usize) -> (r: Vec<Rectangle>)
    requires
        m.wf(),
        cells_of(*m).len() * cols_of(*m) <= isize::MAX,
        region_count <= cells_of(*m).len() * cols_of(*m),
    ensures
        r@ == region_boxes(cells_of(*m), cols_of(*m), region_count + 2, min_area as int),
        all_proper(r@),
        forall|i: int| 0 <= i < r.len() ==> (#[trigger] r@[i]).spec_size() >= min_area,
        min_area <= 1 && (exists|l: usize| 2 <= l < region_count + 2 && #[trigger] label_used(cells_of(*m), cols_of(*m), l))
            ==> r.len() > 0,
{
    let ghost c = cells_of(*m);
    let ghost cols = cols_of(*m);
    let rows = m.nrows();
    let width = m.ncols();
    let default_rectangle = Rectangle::create_default();
    let mut rectangles: Vec<Rectangle> = Vec::new();
    let mut label: usize = 2;
    while label < region_count + 2
        invariant
            m.wf(),
            c == cells_of(*m),
            cols == cols_of(*m),
            rows == c.len(),
            width == cols,
            default_rectangle == Rectangle::spec_default(),
            rows * cols <= isize::MAX,
            region_count <= rows * cols,
            2 <= label <= region_count + 2,
            rectangles@ == region_boxes(c, cols, label as int, min_area as int),
            all_proper(rectangles@),
            forall|i: int| 0 <= i < rectangles.len() ==> (#[trigger] rectangles@[i]).spec_size() >= min_area,
            min_area <= 1 && (exists|l: usize| 2 <= l < label && #[trigger] label_used(c, cols, l)) ==> rectangles.len() > 0,
        decreases region_count + 2 - label,
    {
        let rectangle = create_rectangle(m, label);
        let ghost before = rectangles@;
        if !rectangle.equals(&default_rectangle) {
            proof {
                assert(label_used(c, cols, label)) by {
                    if !label_used(c, cols, label) {
                        assert(bounding_box(c, cols, label) == Rectangle::spec_default());
                    }
                }
                assert(is_bounding_box(c, cols, label, rectangle));
                let right = choose|p: Cell| #[trigger] has_label(c, cols, label, p) && p.0 == rectangle.max_point.x;
                let bottom = choose|p: Cell| #[trigger] has_label(c, cols, label, p) && p.1 == rectangle.max_point.y;
                let wd = rectangle.spec_width();
                let ht = rectangle.spec_height();
                assert(wd <= cols && ht <= rows);
                assert(wd * ht <= cols * rows) by (nonlinear_arith)
                    requires 1 <= wd <= cols, 1 <= ht <= rows;
                assert(cols * rows == rows * cols) by (nonlinear_arith);
                assert(1 <= wd * ht) by (nonlinear_arith)
                    requires 1 <= wd, 1 <= ht;
            }
            if rectangle.size() >= min_area {
                rectangles.push(rectangle);
            }
        } else {
            proof {
                assert(!label_used(c, cols, label)) by {
                    if label_used(c, cols, label) {
                        assert(is_bounding_box(c, cols, label, rectangle));
                    }
                }
            }
        }
        proof {
            if min_area <= 1 && (exists|l: usize| 2 <= l < label + 1 && #[trigger] label_used(c, cols, l)) {
                if !(exists|l: usize| 2 <= l < label && #[trigger] label_used(c, cols, l)) {
                    let l = choose|l: usize| 2 <= l < label + 1 && #[trigger] label_used(c, cols, l);
                    assert(l == label);
                }
            }
            assert forall|i: int| 0 <= i < rectangles@.len() implies (#[trigger] rectangles@[i]).is_proper() && rectangles@[i].spec_size() >= min_area by {
                if i < before.len() {
                    assert(rectangles@[i] == before[i]);
                }
            }
        }
        label = label + 1;
    }
    rectangles
}

proof fn lemma_covered_by_trans(a: Seq<Rectangle>, b: Seq<Rectangle>, c: Seq<Rectangle>)
    requires
        covered_by(a, b),
        covered_by(b, c),
    ensures
        covered_by(a, c),
{
    reveal(covered_by);
    assert forall|i: int| 0 <= i < a.len() implies #[trigger] lies_in_some(a[i], c) by {
        assert(lies_in_some(a[i], b));
        let j = choose|j: int| 0 <= j < b.len() && (#[trigger] b[j]).encloses(a[i]);
        assert(lies_in_some(b[j], c));
        let k = choose|k: int| 0 <= k < c.len() && (#[trigger] c[k]).encloses(b[j]);
        assert(c[k].encloses(a[i]));
    }
}

proof fn lemma_each_holds_one_trans(a: Seq<Rectangle>, b: Seq<Rectangle>, c: Seq<Rectangle>)
    requires
        each_holds_one(c, b),
        each_holds_one(b, a),
    ensures
        each_holds_one(c, a),
{
    reveal(each_holds_one);
    assert forall|k: int| 0 <= k < c.len() implies #[trigger] holds_some(c[k], a) by {
        assert(holds_some(c[k], b));
        let j = choose|j: int| 0 <= j < b.len() && c[k].encloses(#[trigger] b[j]);
        assert(holds_some(b[j], a));
        let i = choose|i: int| 0 <= i < a.len() && b[j].encloses(#[trigger] a[i]);
        assert(c[k].encloses(a[i]));
    }
}

proof fn lemma_covered_nonempty(a: Seq<Rectangle>, b: Seq<Rectangle>)
    requires
        covered_by(a, b),
        a.len() > 0,
    ensures
        b.len() > 0,
{
    reveal(covered_by);
    assert(lies_in_some(a[0], b));
}

/// The rectangles the engine ends with for these cells: the region rectangles of the
/// labeled mask, before merging.
pub open spec fn engine_boxes(expected: PixelGrid, actual: PixelGrid, config: ComparisonConfig) -> Seq<Rectangle> {
    let g = grouped(diff_cells(expected, actual), expected.width as nat, config.jump_threshold as int);
    region_boxes(g.0, expected.width as nat, g.1, config.minimum_region_area as int)
}

pub open spec fn tolerated(expected: PixelGrid, actual: PixelGrid, config: ComparisonConfig) -> bool {
    within_tolerance(
        differing_pixels(expected, actual) as int,
        expected.width * expected.height,
        config.allowed_difference_percent as int,
    )
}

/// The rectangles outlined for two grids of one size: none within tolerance, else
/// the region rectangles after two merge passes.
pub open spec fn difference_rectangles(expected: PixelGrid, actual: PixelGrid, config: ComparisonConfig) -> Seq<Rectangle> {
    if tolerated(expected, actual, config) {
        Seq::empty()
    } else {
        merge_pass(merge_pass(engine_boxes(expected, actual, config)))
    }
}

/// The difference rectangles of two grids of one size: none when the differences
/// are within tolerance; otherwise the region rectangles merged by two passes.
pub fn populate_rectangles(expected: &PixelGrid, actual: &PixelGrid, config: &ComparisonConfig) -> (r: Vec<Rectangle>)
    requires
        expected.wf(),
        actual.wf(),
        same_size(*expected, *actual),
    ensures
        r@ == difference_rectangles(*expected, *actual, *config),
        tolerated(*expected, *actual, *config) ==> r.len() == 0,
        !tolerated(*expected, *actual, *config) ==> {
            let boxes = engine_boxes(*expected, *actual, *config);
            &&& covered_by(boxes, r@)
            &&& each_holds_one(r@, boxes)
            &&& all_proper(r@)
            &&& (pairwise_disjoint(boxes) ==> r@ == boxes)
        },
        !tolerated(*expected, *actual, *config) && config.minimum_region_area <= 1 ==> r.len() > 0,
{
    let (mut m, count) = populate_matrix(expected, actual);
    let total = expected.width * expected.height;
    if count == 0 || is_allowed_percent_of_different_pixels(count, total, config.allowed_difference_percent) {
        return Vec::new();
    }
    let ghost c0 = cells_of(m);
    proof {
        assert(expected.height * expected.width == expected.width * expected.height) by (nonlinear_arith);
    }
    let region_count = group_regions(&mut m, config.jump_threshold);
    let rectangles = create_rectangles(&m, region_count, config.minimum_region_area);
    proof {
        if config.minimum_region_area <= 1 {
            let p = choose|p: Cell| in_grid(c0, cols_of(m), p) && #[trigger] value(c0, p) == 1;
            let v = value(cells_of(m), p);
            assert(has_label(cells_of(m), cols_of(m), v, p));
            assert(label_used(cells_of(m), cols_of(m), v));
        }
    }
    let ghost boxes = rectangles@;
    let once = merge_rectangles(rectangles);
    let twice = merge_rectangles(once);
    proof {
        lemma_covered_by_trans(boxes, once@, twice@);
        lemma_each_holds_one_trans(boxes, once@, twice@);
        if boxes.len() > 0 {
            lemma_covered_nonempty(boxes, twice@);
        }
    }
    twice
}

/// Compares two pixel grids: `SizeMismatch` when their sizes differ; `Match` when no
/// rectangle of difference remains; otherwise `Mismatch` with a copy of `actual` on
/// which the rectangles are outlined in red.
pub fn compare_grids(expected: &PixelGrid, actual: &PixelGrid, config: &ComparisonConfig) -> (r: ImageComparisonResult)
    requires
        expected.wf(),
        actual.wf(),
    ensures
        (r.image_comparison_state == ImageComparisonState::SizeMismatch) == !same_size(*expected, *actual),
        r.image_comparison_state == ImageComparisonState::SizeMismatch
            || r.image_comparison_state == ImageComparisonState::Match
            || r.image_comparison_state == ImageComparisonState::Mismatch,
        same_size(*expected, *actual) && tolerated(*expected, *actual, *config)
            ==> r.image_comparison_state == ImageComparisonState::Match,
        same_size(*expected, *actual) && !tolerated(*expected, *actual, *config) ==> (
            r.image_comparison_state == ImageComparisonState::Mismatch
            <==> engine_boxes(*expected, *actual, *config).len() > 0),
        same_size(*expected, *actual) && !tolerated(*expected, *actual, *config)
            && config.minimum_region_area <= 1 ==> r.image_comparison_state == ImageComparisonState::Mismatch,
        same_size(*expected, *actual) ==> (r.image_comparison_state == ImageComparisonState::Mismatch
            <==> difference_rectangles(*expected, *actual, *config).len() > 0),
        r.result_image.is_some() == (r.image_comparison_state == ImageComparisonState::Mismatch),
        r.result_image.is_some() ==> {
            let img = r.result_image.unwrap();
            let rs = difference_rectangles(*expected, *actual, *config);
            forall|x: int, y: int| actual.in_bounds(x, y) ==>
                #[trigger] img.pixel_at(x, y) == if painted(rs, rs.len(), actual.width as int, actual.height as int, x, y) {
                    Pixel { r: 255, g: 0, b: 0, a: 255 }
                } else {
                    actual.pixel_at(x, y)
                }
        },
        r.result_image.is_some() ==> {
            let img = r.result_image.unwrap();
            &&& img.wf()
            &&& img.width == actual.width
            &&& img.height == actual.height
            &&& forall|x: int, y: int| actual.in_bounds(x, y) ==>
                #[trigger] img.pixel_at(x, y) == actual.pixel_at(x, y)
                    || img.pixel_at(x, y) == (Pixel { r: 255, g: 0, b: 0, a: 255 })
        },
{
    if expected.width != actual.width || expected.height != actual.height {
        return ImageComparisonResult {
            image_comparison_state: ImageComparisonState::SizeMismatch,
            result_image: None,
        };
    }
    let rectangles = populate_rectangles(expected, actual, config);
    proof {
        if !tolerated(*expected, *actual, *config) {
            let boxes = engine_boxes(*expected, *actual, *config);
            if boxes.len() > 0 {
                lemma_covered_nonempty(boxes, rectangles@);
            }
            if rectangles@.len() > 0 {
                reveal(each_holds_one);
                assert(holds_some(rectangles@[0], boxes));
            }
        }
    }
    if rectangles.len() > 0 {
        let image = draw_rectangles(actual, &rectangles, outline_color());
        ImageComparisonResult { image_comparison_state: ImageComparisonState::Mismatch, result_image: Some(image) }
    } else {
        ImageComparisonResult { image_comparison_state: ImageComparisonState::Match, result_image: None }
    }
}

proof fn lemma_diff_count_symmetric(e: Seq<Pixel>, a: Seq<Pixel>, n: nat)
    ensures
        diff_count(e, a, n) == diff_count(a, e, n),
    decreases n,
{
    if n > 0 {
        lemma_diff_count_symmetric(e, a, (n - 1) as nat);
    }
}

proof fn lemma_diff_count_same(g: Seq<Pixel>, n: nat)
    ensures
        diff_count(g, g, n) == 0,
    decreases n,
{
    if n > 0 {
        lemma_diff_count_same(g, (n - 1) as nat);
    }
}

/// A grid compared with itself has no differing pixel, so it is within tolerance and
/// `compare_grids` reports a match.
pub proof fn identical_grids_match(g: PixelGrid, config: ComparisonConfig)
    requires
        g.wf(),
    ensures
        differing_pixels(g, g) == 0,
        tolerated(g, g, config),
        difference_rectangles(g, g, config).len() == 0,
{
    lemma_diff_count_same(g.pixels@, g.pixels@.len());
}

/// Swapping the two grids changes neither whether the differences are within
/// tolerance nor the rectangles found, so `compare_grids` reaches the same verdict in
/// both orders; only the image the outlines are drawn on differs.
pub proof fn detection_is_symmetric(a: PixelGrid, b: PixelGrid, config: ComparisonConfig)
    requires
        a.wf(),
        b.wf(),
        same_size(a, b),
    ensures
        differing_pixels(a, b) == differing_pixels(b, a),
        tolerated(a, b, config) == tolerated(b, a, config),
        diff_cells(a, b) == diff_cells(b, a),
        engine_boxes(a, b, config) == engine_boxes(b, a, config),
        difference_rectangles(a, b, config) == difference_rectangles(b, a, config),
{
    lemma_diff_count_symmetric(a.pixels@, b.pixels@, a.pixels@.len());
    let d1 = diff_cells(a, b);
    let d2 = diff_cells(b, a);
    assert forall|y: int| 0 <= y < d1.len() implies #[trigger] d1[y] =~= d2[y] by {}
    assert(d1 =~= d2);
}

} // verus!
