use vstd::prelude::*;
use crate::geometry::Rectangle;
use crate::grid::{Pixel, PixelGrid};

verus! {

/// The outline is drawn this many times, each one cell further out.
pub const OUTLINE_COUNT: usize = 3;

/// `(x, y)` lies on the straight segment from `s` to `e`, vertical when the columns
/// agree, horizontal when the rows agree.
pub open spec fn on_segment(s: (int, int), e: (int, int), x: int, y: int) -> bool {
    ||| (s.0 == e.0 && x == s.0 && s.1 <= y <= e.1)
    ||| (s.1 == e.1 && y == s.1 && s.0 <= x <= e.0)
}

/// `(x, y)` lies on one of the four edges of `r`.
pub open spec fn on_outline(r: Rectangle, x: int, y: int) -> bool {
    let (x0, y0, x1, y1) = (r.min_point.x as int, r.min_point.y as int, r.max_point.x as int, r.max_point.y as int);
    ||| on_segment((x0, y0), (x1, y0), x, y)
    ||| on_segment((x0, y1), (x1, y1), x, y)
    ||| on_segment((x0, y0), (x0, y1), x, y)
    ||| on_segment((x1, y0), (x1, y1), x, y)
}

/// `r` moved out by one cell on every side, as far as the coordinates allow.
pub open spec fn grow(r: Rectangle) -> Rectangle {
    Rectangle { min_point: r.min_point.spec_decrement(), max_point: r.max_point.spec_increment() }
}

/// `r` after `n` growth steps.
pub open spec fn grown(r: Rectangle, n: nat) -> Rectangle
    decreases n,
{
    if n == 0 {
        r
    } else {
        grow(grown(r, (n - 1) as nat))
    }
}

/// `(x, y)` is painted by one of the first `n` outlines of `r`; an outline that does
/// not fit inside a `w` by `h` image is skipped whole.
pub open spec fn painted_by(r: Rectangle, n: nat, w: int, h: int, x: int, y: int) -> bool
    decreases n,
{
    if n == 0 {
        false
    } else {
        let g = grown(r, (n - 1) as nat);
        painted_by(r, (n - 1) as nat, w, h, x, y) || (!g.spec_out_of_bounds(w, h) && on_outline(g, x, y))
    }
}

/// `(x, y)` is painted by the outlines of one of the first `k` rectangles.
pub open spec fn painted(rs: Seq<Rectangle>, k: nat, w: int, h: int, x: int, y: int) -> bool
    decreases k,
{
    if k == 0 {
        false
    } else {
        painted(rs, (k - 1) as nat, w, h, x, y) || painted_by(rs[k - 1], OUTLINE_COUNT as nat, w, h, x, y)
    }
}

/// Paints the straight segment from `start` to `end` (vertical or horizontal).
pub fn draw_line_segment(image: &mut PixelGrid, start: (usize, usize), end: (usize, usize), color: Pixel)
    requires
        old(image).wf(),
        start.0 < old(image).width,
        end.0 < old(image).width,
        start.1 < old(image).height,
        end.1 < old(image).height,
    ensures
        final(image).wf(),
        final(image).width == old(image).width,
        final(image).height == old(image).height,
        forall|x: int, y: int|
            old(image).in_bounds(x, y) ==> #[trigger] final(image).pixel_at(x, y) == if on_segment(
                (start.0 as int, start.1 as int),
                (end.0 as int, end.1 as int),
                x,
                y,
            ) {
                color
            } else {
                old(image).pixel_at(x, y)
            },
{
    let ghost before = *image;
    let ghost s = (start.0 as int, start.1 as int);
    let ghost e = (end.0 as int, end.1 as int);
    if start.0 == end.0 {
        let mut y = start.1;
        while y <= end.1
            invariant
                image.wf(),
                image.width == before.width,
                image.height == before.height,
                start.0 == end.0,
                start.0 < before.width,
                end.1 < before.height,
                start.1 <= y,
                y <= end.1 + 1 || y == start.1,
                forall|px: int, py: int|
                    before.in_bounds(px, py) ==> #[trigger] image.pixel_at(px, py) == if px == start.0
                        && start.1 <= py < y {
                        color
                    } else {
                        before.pixel_at(px, py)
                    },
            decreases end.1 + 1 - y,
        {
            image.put_pixel(start.0, y, color);
            y = y + 1;
        }
    }
    let ghost middle = *image;
    if start.1 == end.1 {
        let mut x = start.0;
        while x <= end.0
            invariant
                image.wf(),
                image.width == before.width,
                image.height == before.height,
                start.1 == end.1,
                start.1 < before.height,
                end.0 < before.width,
                start.0 <= x,
                x <= end.0 + 1 || x == start.0,
                forall|px: int, py: int|
                    before.in_bounds(px, py) ==> #[trigger] image.pixel_at(px, py) == if py == start.1
                        && start.0 <= px < x {
                        color
                    } else {
                        middle.pixel_at(px, py)
                    },
            decreases end.0 + 1 - x,
        {
            image.put_pixel(x, start.1, color);
            x = x + 1;
        }
    }
}

/// Paints the four edges of `rectangle`, which must fit inside the image.
pub fn draw_rectangle(image: &mut PixelGrid, rectangle: &Rectangle, color: Pixel)
    requires
        old(image).wf(),
        !rectangle.spec_out_of_bounds(old(image).width as int, old(image).height as int),
    ensures
        final(image).wf(),
        final(image).width == old(image).width,
        final(image).height == old(image).height,
        forall|x: int, y: int|
            old(image).in_bounds(x, y) ==> #[trigger] final(image).pixel_at(x, y) == if on_outline(*rectangle, x, y) {
                color
            } else {
                old(image).pixel_at(x, y)
            },
{
    let x0 = rectangle.min_point.x;
    let y0 = rectangle.min_point.y;
    let x1 = rectangle.max_point.x;
    let y1 = rectangle.max_point.y;
    draw_line_segment(image, (x0, y0), (x1, y0), color);
    draw_line_segment(image, (x0, y1), (x1, y1), color);
    draw_line_segment(image, (x0, y0), (x0, y1), color);
    draw_line_segment(image, (x1, y0), (x1, y1), color);
}

/// A copy of `actual` with the outlines of every rectangle painted in `color`: each
/// rectangle is outlined, then grown by one cell and outlined again, three outlines
/// in all, and an outline that would leave the image is skipped.
pub fn draw_rectangles(actual: &PixelGrid, rectangles: &Vec<Rectangle>, color: Pixel) -> (result: PixelGrid)
    requires
        actual.wf(),
    ensures
        result.wf(),
        result.width == actual.width,
        result.height == actual.height,
        forall|x: int, y: int|
            actual.in_bounds(x, y) ==> #[trigger] result.pixel_at(x, y) == if painted(
                rectangles@,
                rectangles.len() as nat,
                actual.width as int,
                actual.height as int,
                x,
                y,
            ) {
                color
            } else {
                actual.pixel_at(x, y)
            },
{
    let w = actual.width;
    let h = actual.height;
    let mut pixels: Vec<Pixel> = Vec::new();
    let n = actual.pixels.len();
    let mut i: usize = 0;
    while i < n
        invariant
            n == actual.pixels.len(),
            i <= n,
            pixels@ == actual.pixels@.take(i as int),
        decreases n - i,
    {
        pixels.push(actual.pixels[i]);
        i = i + 1;
        proof {
            assert(pixels@ =~= actual.pixels@.take(i as int));
        }
    }
    proof {
        assert(pixels@ =~= actual.pixels@);
    }
    let mut result = PixelGrid { width: w, height: h, pixels };
    let mut k: usize = 0;
    while k < rectangles.len()
        invariant
            actual.wf(),
            w == actual.width,
            h == actual.height,
            result.wf(),
            result.width == w,
            result.height == h,
            k <= rectangles.len(),
            forall|x: int, y: int|
                actual.in_bounds(x, y) ==> #[trigger] result.pixel_at(x, y) == if painted(
                    rectangles@,
                    k as nat,
                    w as int,
                    h as int,
                    x,
                    y,
                ) {
                    color
                } else {
                    actual.pixel_at(x, y)
                },
        decreases rectangles.len() - k,
    {
        let mut rectangle = rectangles[k];
        let mut step: usize = 0;
        while step < OUTLINE_COUNT
            invariant
                actual.wf(),
                w == actual.width,
                h == actual.height,
                result.wf(),
                result.width == w,
                result.height == h,
                k < rectangles.len(),
                step <= OUTLINE_COUNT,
                step == 0 ==> rectangle == rectangles@[k as int],
                step > 0 ==> rectangle == grown(rectangles@[k as int], (step - 1) as nat),
                forall|x: int, y: int|
                    actual.in_bounds(x, y) ==> #[trigger] result.pixel_at(x, y) == if painted(
                        rectangles@,
                        k as nat,
                        w as int,
                        h as int,
                        x,
                        y,
                    ) || painted_by(rectangles@[k as int], step as nat, w as int, h as int, x, y) {
                        color
                    } else {
                        actual.pixel_at(x, y)
                    },
            decreases OUTLINE_COUNT - step,
        {
            if step > 0 {
                rectangle.min_point.decrement();
                rectangle.max_point.increment();
            }
            proof {
                assert(rectangle == grown(rectangles@[k as int], step as nat));
            }
            if !rectangle.out_of_bounds(w, h) {
                draw_rectangle(&mut result, &rectangle, color);
            }
            step = step + 1;
        }
        k = k + 1;
    }
    result
}

} // verus!
