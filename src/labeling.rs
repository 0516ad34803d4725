use vstd::prelude::*;
use crate::diff_matrix::{shaped, DiffMatrix, cells_of, cols_of};

verus! {

/// A cell as (column, row).
pub type Cell = (int, int);

pub open spec fn in_grid(c: Seq<Seq<usize>>, cols: nat, p: Cell) -> bool {
    0 <= p.1 < c.len() && 0 <= p.0 < cols
}

pub open spec fn value(c: Seq<Seq<usize>>, p: Cell) -> usize {
    c[p.1][p.0]
}

/// `b` is reached from `a` by one jump of at most `reach` cells: to the right, down,
/// up-right, down-left or down-right.
pub open spec fn is_jump(reach: int, a: Cell, b: Cell) -> bool {
    let dx = b.0 - a.0;
    let dy = b.1 - a.1;
    ||| (1 <= dx <= reach && dy == 0)
    ||| (dx == 0 && 1 <= dy <= reach)
    ||| (1 <= dx <= reach && dy == -dx)
    ||| (1 <= dy <= reach && dx == -dy)
    ||| (1 <= dx <= reach && dy == dx)
}

/// A set of cells that takes in every unassigned differing cell one jump away from
/// any of its members.
pub open spec fn closed_under_jumps(c: Seq<Seq<usize>>, cols: nat, t: int, s: Set<Cell>) -> bool {
    forall|a: Cell, b: Cell|
        #![trigger s.contains(a), is_jump(t, a, b)]
        s.contains(a) && in_grid(c, cols, b) && value(c, b) == 1 && is_jump(t, a, b)
            ==> s.contains(b)
}

/// `p` lies in the region grown from `seed`: the least set that holds `seed` and is
/// closed under jumps into unassigned differing cells.
pub open spec fn in_region(c: Seq<Seq<usize>>, cols: nat, t: int, seed: Cell, p: Cell) -> bool {
    forall|s: Set<Cell>|
        #![trigger closed_under_jumps(c, cols, t, s), s.contains(p)]
        closed_under_jumps(c, cols, t, s) && s.contains(seed) ==> s.contains(p)
}

/// The cells after the region grown from `seed` has been given `label`.
pub open spec fn labeled_region(c: Seq<Seq<usize>>, cols: nat, t: int, seed: Cell, label: usize, p: Cell) -> usize {
    if value(c, p) == 1 && in_region(c, cols, t, seed, p) {
        label
    } else {
        value(c, p)
    }
}

pub open spec fn count_row(r: Seq<usize>) -> nat
    decreases r.len(),
{
    if r.len() == 0 {
        0
    } else {
        count_row(r.drop_last()) + if r.last() == 1 { 1nat } else { 0nat }
    }
}

/// The number of cells that hold `1`.
pub open spec fn count_ones(c: Seq<Seq<usize>>) -> nat
    decreases c.len(),
{
    if c.len() == 0 {
        0
    } else {
        count_ones(c.drop_last()) + count_row(c.last())
    }
}

proof fn lemma_count_row_update(r: Seq<usize>, i: int, v: usize)
    requires
        0 <= i < r.len(),
        r[i] == 1,
        v != 1,
    ensures
        count_row(r.update(i, v)) + 1 == count_row(r),
    decreases r.len(),
{
    let u = r.update(i, v);
    if i == r.len() - 1 {
        assert(u.drop_last() =~= r.drop_last());
    } else {
        assert(u.drop_last() =~= r.drop_last().update(i, v));
        lemma_count_row_update(r.drop_last(), i, v);
    }
}

proof fn lemma_count_ones_update(c: Seq<Seq<usize>>, y: int, x: int, v: usize)
    requires
        0 <= y < c.len(),
        0 <= x < c[y].len(),
        c[y][x] == 1,
        v != 1,
    ensures
        count_ones(c.update(y, c[y].update(x, v))) + 1 == count_ones(c),
    decreases c.len(),
{
    let u = c.update(y, c[y].update(x, v));
    if y == c.len() - 1 {
        assert(u.drop_last() =~= c.drop_last());
        lemma_count_row_update(c[y], x, v);
    } else {
        assert(u.drop_last() =~= c.drop_last().update(y, c[y].update(x, v)));
        lemma_count_ones_update(c.drop_last(), y, x, v);
    }
}

pub open spec fn on_stack(st: Seq<(usize, usize)>, a: Cell) -> bool {
    exists|k: int| 0 <= k < st.len() && (#[trigger] st[k]).0 == a.0 && st[k].1 == a.1
}

/// Cells changed so far are unassigned differing cells of the region, now labeled.
pub open spec fn fill_sound(c0: Seq<Seq<usize>>, c: Seq<Seq<usize>>, cols: nat, t: int, seed: Cell, label: usize) -> bool {
    forall|p: Cell|
        #![trigger value(c, p)]
        in_grid(c0, cols, p) ==> value(c, p) == value(c0, p) || (value(c0, p) == 1 && value(c, p)
            == label && in_region(c0, cols, t, seed, p))
}

/// Every cell on the stack is a newly labeled cell.
pub open spec fn fill_stacked(c0: Seq<Seq<usize>>, c: Seq<Seq<usize>>, cols: nat, st: Seq<(usize, usize)>, label: usize) -> bool {
    forall|k: int|
        0 <= k < st.len() ==> {
            let q = (#[trigger] st[k]);
            &&& in_grid(c0, cols, (q.0 as int, q.1 as int))
            &&& value(c0, (q.0 as int, q.1 as int)) == 1
            &&& value(c, (q.0 as int, q.1 as int)) == label
        }
}

/// Every differing cell one jump of at most `reach` from `a` is labeled.
pub open spec fn jumps_done(c0: Seq<Seq<usize>>, c: Seq<Seq<usize>>, cols: nat, reach: int, a: Cell, label: usize) -> bool {
    forall|b: Cell|
        #![trigger is_jump(reach, a, b)]
        in_grid(c0, cols, b) && is_jump(reach, a, b) && value(c0, b) == 1 ==> value(c, b) == label
}

/// A newly labeled cell off the stack has had all its jumps followed; `cur`, the
/// cell being expanded, so far those of at most `reach`.
pub open spec fn fill_progress(c0: Seq<Seq<usize>>, c: Seq<Seq<usize>>, cols: nat, t: int, st: Seq<(usize, usize)>, label: usize, cur: Cell, reach: int) -> bool {
    forall|a: Cell|
        #![trigger value(c, a), on_stack(st, a)]
        in_grid(c0, cols, a) && value(c0, a) == 1 && value(c, a) == label && !on_stack(st, a)
            ==> jumps_done(c0, c, cols, if a == cur { reach } else { t }, a, label)
}

pub open spec fn fill_inv(c0: Seq<Seq<usize>>, c: Seq<Seq<usize>>, cols: nat, t: int, seed: Cell, label: usize, st: Seq<(usize, usize)>, cur: Cell, reach: int) -> bool {
    &&& c.len() == c0.len()
    &&& shaped(c, cols)
    &&& fill_sound(c0, c, cols, t, seed, label)
    &&& fill_stacked(c0, c, cols, st, label)
    &&& fill_progress(c0, c, cols, t, st, label, cur, reach)
}

proof fn lemma_on_stack_push(st: Seq<(usize, usize)>, q: (usize, usize), a: Cell)
    ensures
        on_stack(st, a) ==> on_stack(st.push(q), a),
        on_stack(st.push(q), (q.0 as int, q.1 as int)),
{
    let st2 = st.push(q);
    if on_stack(st, a) {
        let k = choose|k: int| 0 <= k < st.len() && (#[trigger] st[k]).0 == a.0 && st[k].1 == a.1;
        assert(st2[k] == st[k]);
    }
    assert(st2[st.len() as int] == q);
}

/// Labels the cell at `(x, y)` and puts it on the stack if it is an unassigned
/// differing cell; leaves both unchanged otherwise.
fn claim(
    m: &mut DiffMatrix,
    st: &mut Vec<(usize, usize)>,
    x: usize,
    y: usize,
    label: usize,
    Ghost(c0): Ghost<Seq<Seq<usize>>>,
    Ghost(t): Ghost<int>,
    Ghost(seed): Ghost<Cell>,
    Ghost(cur): Ghost<Cell>,
    Ghost(reach): Ghost<int>,
)
    requires
        old(m).wf(),
        label != 1,
        fill_inv(c0, cells_of(*old(m)), cols_of(*old(m)), t, seed, label, old(st)@, cur, reach),
        in_grid(c0, cols_of(*old(m)), cur),
        value(c0, cur) == 1,
        value(cells_of(*old(m)), cur) == label,
        in_grid(c0, cols_of(*old(m)), (x as int, y as int)),
        is_jump(t, cur, (x as int, y as int)),
    ensures
        final(m).wf(),
        cols_of(*final(m)) == cols_of(*old(m)),
        fill_inv(c0, cells_of(*final(m)), cols_of(*final(m)), t, seed, label, final(st)@, cur, reach),
        value(c0, (x as int, y as int)) == 1 ==> value(cells_of(*final(m)), (x as int, y as int)) == label,
        forall|p: Cell|
            in_grid(c0, cols_of(*old(m)), p) && value(cells_of(*old(m)), p) == label
                ==> #[trigger] value(cells_of(*final(m)), p) == label,
        count_ones(cells_of(*final(m))) + final(st)@.len() == count_ones(cells_of(*old(m)))
            + old(st)@.len(),
{
    let ghost c = cells_of(*m);
    let ghost cols = cols_of(*m);
    let ghost s = st@;
    let ghost b: Cell = (x as int, y as int);
    if m.get(y, x) == 1 {
        m.set(y, x, label);
        st.push((x, y));
        proof {
            let c2 = cells_of(*m);
            let s2 = st@;
            lemma_count_ones_update(c, y as int, x as int, label);
            assert(value(c, b) == 1);
            assert(value(c0, b) == 1);
            assert(in_region(c0, cols, t, seed, cur));
            assert forall|sset: Set<Cell>|
                closed_under_jumps(c0, cols, t, sset) && sset.contains(seed) implies #[trigger] sset.contains(b) by {
                assert(sset.contains(cur));
            }
            assert(in_region(c0, cols, t, seed, b));
            assert forall|p: Cell| #![trigger value(c2, p)] in_grid(c0, cols, p) implies value(c2, p) == value(c0, p) || (
                value(c0, p) == 1 && value(c2, p) == label && in_region(c0, cols, t, seed, p)) by {
                if p != b {
                    assert(value(c2, p) == value(c, p));
                }
            }
            assert forall|k: int| 0 <= k < s2.len() implies {
                let q = (#[trigger] s2[k]);
                &&& in_grid(c0, cols, (q.0 as int, q.1 as int))
                &&& value(c0, (q.0 as int, q.1 as int)) == 1
                &&& value(c2, (q.0 as int, q.1 as int)) == label
            } by {
                if k < s.len() {
                    assert(s2[k] == s[k]);
                }
            }
            assert forall|a: Cell|
                #![trigger value(c2, a), on_stack(s2, a)]
                in_grid(c0, cols, a) && value(c0, a) == 1 && value(c2, a) == label && !on_stack(s2, a)
                    implies jumps_done(c0, c2, cols, if a == cur { reach } else { t }, a, label) by {
                lemma_on_stack_push(s, (x, y), a);
                assert(a != b);
                assert(value(c, a) == label);
                let r = if a == cur { reach } else { t };
                assert(jumps_done(c0, c, cols, r, a, label));
                assert forall|bb: Cell| #![trigger is_jump(r, a, bb)]
                    in_grid(c0, cols, bb) && is_jump(r, a, bb) && value(c0, bb) == 1 implies value(c2, bb) == label by {
                    if bb != b {
                        assert(value(c2, bb) == value(c, bb));
                    }
                }
            }
            assert forall|p: Cell|
                in_grid(c0, cols, p) && value(c, p) == label implies #[trigger] value(c2, p) == label by {
                if p != b {
                    assert(value(c2, p) == value(c, p));
                }
            }
        }
    } else {
        proof {
            if value(c0, b) == 1 {
                assert(value(c, b) == label);
            }
        }
    }
}

/// A region can be grown from `(x, y)`: it lies in the matrix and holds an unassigned
/// differing cell.
pub open spec fn seed_accepted(c: Seq<Seq<usize>>, cols: nat, x: int, y: int) -> bool {
    0 <= y < c.len() && 0 <= x < cols && c[y][x] == 1
}

/// Gives `label` to every unassigned differing cell of the region grown from the
/// differing cell at `(x, y)`, following jumps of at most `threshold` cells. A seed
/// outside the matrix or not holding `1` leaves the matrix unchanged.
pub fn fill_region(m: &mut DiffMatrix, x: usize, y: usize, label: usize, threshold: usize)
    requires
        old(m).wf(),
        label != 1,
    ensures
        final(m).wf(),
        cols_of(*final(m)) == cols_of(*old(m)),
        cells_of(*final(m)).len() == cells_of(*old(m)).len(),
        !seed_accepted(cells_of(*old(m)), cols_of(*old(m)), x as int, y as int) ==> cells_of(*final(m)) == cells_of(*old(m)),
        forall|p: Cell|
            in_grid(cells_of(*old(m)), cols_of(*old(m)), p) ==> #[trigger] value(cells_of(*final(m)), p)
                == if seed_accepted(cells_of(*old(m)), cols_of(*old(m)), x as int, y as int) {
                labeled_region(
                    cells_of(*old(m)),
                    cols_of(*old(m)),
                    threshold as int,
                    (x as int, y as int),
                    label,
                    p,
                )
            } else {
                value(cells_of(*old(m)), p)
            },
{
    let ghost c0 = cells_of(*m);
    let ghost cols = cols_of(*m);
    let ghost t = threshold as int;
    let ghost seed: Cell = (x as int, y as int);
    let ghost none: Cell = (-1, -1);
    let rows = m.nrows();
    let width = m.ncols();
    if y >= rows || x >= width || m.get(y, x) != 1 {
        return;
    }
    m.set(y, x, label);
    let mut st: Vec<(usize, usize)> = Vec::new();
    st.push((x, y));
    proof {
        let c = cells_of(*m);
        assert forall|sset: Set<Cell>|
            closed_under_jumps(c0, cols, t, sset) && sset.contains(seed) implies #[trigger] sset.contains(seed) by {}
        assert forall|p: Cell| #![trigger value(c, p)] in_grid(c0, cols, p) implies value(c, p) == value(c0, p) || (
            value(c0, p) == 1 && value(c, p) == label && in_region(c0, cols, t, seed, p)) by {
            if p != seed {
                assert(value(c, p) == value(c0, p));
            }
        }
        assert(st@[0] == (x, y));
        assert forall|a: Cell|
            #![trigger value(c, a), on_stack(st@, a)]
            in_grid(c0, cols, a) && value(c0, a) == 1 && value(c, a) == label && !on_stack(st@, a)
                implies jumps_done(c0, c, cols, if a == none { 0 } else { t }, a, label) by {
            if a != seed {
                assert(value(c, a) == value(c0, a));
            }
        }
    }
    while st.len() > 0
        invariant
            m.wf(),
            label != 1,
            rows == c0.len(),
            width == cols,
            cols_of(*m) == cols,
            in_grid(c0, cols, seed),
            value(c0, seed) == 1,
            value(cells_of(*m), seed) == label,
            none == (-1int, -1int),
            threshold == t,
            fill_inv(c0, cells_of(*m), cols, t, seed, label, st@, none, 0),
        decreases count_ones(cells_of(*m)) + st@.len(),
    {
        let ghost s_before = st@;
        let ghost measure = count_ones(cells_of(*m)) + st@.len();
        let (cx, cy) = st.pop().unwrap();
        let ghost cur: Cell = (cx as int, cy as int);
        proof {
            let c = cells_of(*m);
            let s = st@;
            assert(s_before[s.len() as int] == (cx, cy));
            assert forall|k: int| 0 <= k < s.len() implies #[trigger] s[k] == s_before[k] by {}
            assert forall|a: Cell|
                #![trigger value(c, a), on_stack(s, a)]
                in_grid(c0, cols, a) && value(c0, a) == 1 && value(c, a) == label && !on_stack(s, a)
                    implies jumps_done(c0, c, cols, if a == cur { 0 } else { t }, a, label) by {
                if a != cur {
                    if on_stack(s_before, a) {
                        let k = choose|k: int| 0 <= k < s_before.len() && (#[trigger] s_before[k]).0 == a.0 && s_before[k].1 == a.1;
                        assert(s[k] == s_before[k]);
                    } else {
                        assert(a != none);
                    }
                } else {
                    assert forall|b: Cell| #![trigger is_jump(0, a, b)]
                        in_grid(c0, cols, b) && is_jump(0, a, b) && value(c0, b) == 1 implies value(c, b) == label by {}
                }
            }
        }
        let mut i: usize = 0;
        while i < threshold
            invariant
                m.wf(),
                label != 1,
                rows == c0.len(),
                width == cols,
                cols_of(*m) == cols,
                in_grid(c0, cols, seed),
                value(c0, seed) == 1,
                value(cells_of(*m), seed) == label,
                none == (-1int, -1int),
                threshold == t,
                i <= threshold,
                in_grid(c0, cols, cur),
                cur == (cx as int, cy as int),
                value(c0, cur) == 1,
                value(cells_of(*m), cur) == label,
                fill_inv(c0, cells_of(*m), cols, t, seed, label, st@, cur, i as int),
                count_ones(cells_of(*m)) + st@.len() + 1 == measure,
            decreases threshold - i,
        {
            let d = i + 1;
            let ghost targets: Seq<Cell> = seq![
                (cx + d, cy as int),
                (cx as int, cy + d),
                (cx + d, cy - d),
                (cx - d, cy + d),
                (cx + d, cy + d),
            ];
            if d < width - cx {
                claim(m, &mut st, cx + d, cy, label, Ghost(c0), Ghost(t), Ghost(seed), Ghost(cur), Ghost(i as int));
            }
            if d < rows - cy {
                claim(m, &mut st, cx, cy + d, label, Ghost(c0), Ghost(t), Ghost(seed), Ghost(cur), Ghost(i as int));
            }
            if d < width - cx && no_sub_overflow(cy, 1, i) {
                claim(m, &mut st, cx + d, cy - d, label, Ghost(c0), Ghost(t), Ghost(seed), Ghost(cur), Ghost(i as int));
            }
            if d <= cx && d < rows - cy {
                claim(m, &mut st, cx - d, cy + d, label, Ghost(c0), Ghost(t), Ghost(seed), Ghost(cur), Ghost(i as int));
            }
            if d < width - cx && d < rows - cy {
                claim(m, &mut st, cx + d, cy + d, label, Ghost(c0), Ghost(t), Ghost(seed), Ghost(cur), Ghost(i as int));
            }
            proof {
                let c = cells_of(*m);
                let s = st@;
                assert forall|a: Cell|
                    #![trigger value(c, a), on_stack(s, a)]
                    in_grid(c0, cols, a) && value(c0, a) == 1 && value(c, a) == label && !on_stack(s, a)
                        implies jumps_done(c0, c, cols, if a == cur { d as int } else { t }, a, label) by {
                    if a == cur {
                        assert(jumps_done(c0, c, cols, i as int, a, label));
                        assert forall|b: Cell| #![trigger is_jump(d as int, a, b)]
                            in_grid(c0, cols, b) && is_jump(d as int, a, b) && value(c0, b) == 1 implies value(c, b) == label by {
                            if !is_jump(i as int, a, b) {
                                assert(is_jump(i as int, a, b) || value(c, b) == label);
                            }
                        }
                    }
                }
            }
            i = i + 1;
        }
        proof {
            let c = cells_of(*m);
            let s = st@;
            assert forall|a: Cell|
                #![trigger value(c, a), on_stack(s, a)]
                in_grid(c0, cols, a) && value(c0, a) == 1 && value(c, a) == label && !on_stack(s, a)
                    implies jumps_done(c0, c, cols, if a == none { 0 } else { t }, a, label) by {
                assert(a != none);
            }
        }
    }
    proof {
        let c = cells_of(*m);
        let region = Set::new(|p: Cell| in_grid(c0, cols, p) && value(c0, p) == 1 && value(c, p) == label);
        assert forall|a: Cell, b: Cell|
            #![trigger region.contains(a), is_jump(t, a, b)]
            region.contains(a) && in_grid(c0, cols, b) && value(c0, b) == 1 && is_jump(t, a, b)
                implies region.contains(b) by {
            assert(value(c, a) == label);
            assert(!on_stack(st@, a));
            assert(jumps_done(c0, c, cols, t, a, label));
        }
        assert(closed_under_jumps(c0, cols, t, region));
        assert(region.contains(seed));
        assert forall|p: Cell| in_grid(c0, cols, p) implies #[trigger] value(c, p)
            == labeled_region(c0, cols, t, seed, label, p) by {
            if value(c0, p) == 1 && in_region(c0, cols, t, seed, p) {
                assert(region.contains(p));
            }
        }
    }
}

/// The whole matrix after the region grown from `seed` has been given `label`.
pub open spec fn fill_all(c: Seq<Seq<usize>>, cols: nat, t: int, seed: Cell, label: usize) -> Seq<Seq<usize>> {
    Seq::new(c.len(), |y: int| Seq::new(cols, |x: int| labeled_region(c, cols, t, seed, label, (x, y))))
}

/// The cells and the next free label when the row-major scan reaches column `x` of
/// row `y`: each unassigned differing cell met starts a region with the next label,
/// counted up from 2.
pub open spec fn scan(c0: Seq<Seq<usize>>, cols: nat, t: int, y: nat, x: nat) -> (Seq<Seq<usize>>, int)
    decreases y, x,
{
    if x > 0 {
        let (c, l) = scan(c0, cols, t, y, (x - 1) as nat);
        let p: Cell = ((x - 1) as int, y as int);
        if value(c, p) == 1 {
            (fill_all(c, cols, t, p, l as usize), l + 1)
        } else {
            (c, l)
        }
    } else if y > 0 {
        scan(c0, cols, t, (y - 1) as nat, cols)
    } else {
        (c0, 2)
    }
}

/// The scan over every row.
pub open spec fn grouped(c0: Seq<Seq<usize>>, cols: nat, t: int) -> (Seq<Seq<usize>>, int) {
    scan(c0, cols, t, c0.len(), 0)
}

/// `value - operand_1 - operand_2` stays at or above zero.
pub fn no_sub_overflow(value: usize, operand_1: usize, operand_2: usize) -> (r: bool)
    ensures
        r == (value >= operand_1 + operand_2),
{
    match value.checked_sub(operand_1) {
        Some(rest) => rest.checked_sub(operand_2).is_some(),
        None => false,
    }
}

/// Comes strictly before `(x, y)` in row-major order.
pub open spec fn scanned_before(p: Cell, x: int, y: int) -> bool {
    p.1 < y || (p.1 == y && p.0 < x)
}

/// Assigns every differing cell to a region, scanning rows top to bottom and each row
/// left to right, and returns the number of regions. Regions are labeled 2, 3, ...
/// in the order their first cell is met.
pub fn group_regions(m: &mut DiffMatrix, threshold: usize) -> (count: usize)
    requires
        old(m).wf(),
        cells_of(*old(m)).len() * cols_of(*old(m)) <= isize::MAX,
    ensures
        final(m).wf(),
        cols_of(*final(m)) == cols_of(*old(m)),
        cells_of(*final(m)) == grouped(cells_of(*old(m)), cols_of(*old(m)), threshold as int).0,
        count + 2 == grouped(cells_of(*old(m)), cols_of(*old(m)), threshold as int).1,
        count <= cells_of(*old(m)).len() * cols_of(*old(m)),
        cells_of(*final(m)).len() == cells_of(*old(m)).len(),
        forall|p: Cell|
            in_grid(cells_of(*old(m)), cols_of(*old(m)), p) ==> {
                let v = #[trigger] value(cells_of(*final(m)), p);
                if value(cells_of(*old(m)), p) == 1 {
                    2 <= v < count + 2
                } else {
                    v == value(cells_of(*old(m)), p)
                }
            },
{
    let ghost c0 = cells_of(*m);
    let ghost cols = cols_of(*m);
    let ghost t = threshold as int;
    let rows = m.nrows();
    let width = m.ncols();
    let mut label: usize = 2;
    let mut y: usize = 0;
    while y < rows
        invariant
            m.wf(),
            rows == c0.len(),
            width == cols,
            cols_of(*m) == cols,
            cells_of(*m).len() == rows,
            rows * cols <= isize::MAX,
            t == threshold,
            y <= rows,
            (cells_of(*m), label as int) == scan(c0, cols, t, y as nat, 0),
            2 <= label <= 2 + y * cols,
            forall|p: Cell|
                in_grid(c0, cols, p) ==> {
                    let v = #[trigger] value(cells_of(*m), p);
                    if value(c0, p) == 1 {
                        (v == 1 && !scanned_before(p, 0, y as int)) || (2 <= v < label)
                    } else {
                        v == value(c0, p)
                    }
                },
        decreases rows - y,
    {
        let mut x: usize = 0;
        while x < width
            invariant
                m.wf(),
                rows == c0.len(),
                width == cols,
                cols_of(*m) == cols,
                cells_of(*m).len() == rows,
                rows * cols <= isize::MAX,
                t == threshold,
                y < rows,
                x <= width,
                (cells_of(*m), label as int) == scan(c0, cols, t, y as nat, x as nat),
                2 <= label <= 2 + y * cols + x,
                forall|p: Cell|
                    in_grid(c0, cols, p) ==> {
                        let v = #[trigger] value(cells_of(*m), p);
                        if value(c0, p) == 1 {
                            (v == 1 && !scanned_before(p, x as int, y as int)) || (2 <= v < label)
                        } else {
                            v == value(c0, p)
                        }
                    },
            decreases width - x,
        {
            proof {
                assert(y * cols + x < rows * cols) by (nonlinear_arith)
                    requires y < rows, x < cols;
            }
            let ghost c = cells_of(*m);
            if m.get(y, x) == 1 {
                fill_region(m, x, y, label, threshold);
                proof {
                    let c2 = cells_of(*m);
                    assert(c2 =~= fill_all(c, cols, t, (x as int, y as int), label)) by {
                        assert forall|yy: int| 0 <= yy < c2.len() implies #[trigger] c2[yy] =~= fill_all(c, cols, t, (x as int, y as int), label)[yy] by {
                            assert forall|xx: int| 0 <= xx < c2[yy].len() implies c2[yy][xx] == fill_all(c, cols, t, (x as int, y as int), label)[yy][xx] by {
                                assert(value(c2, (xx, yy)) == labeled_region(c, cols, t, (x as int, y as int), label, (xx, yy)));
                            }
                        }
                    }
                    assert forall|p: Cell| in_grid(c0, cols, p) implies {
                        let v = #[trigger] value(c2, p);
                        if value(c0, p) == 1 {
                            (v == 1 && !scanned_before(p, x + 1, y as int)) || (2 <= v < label + 1)
                        } else {
                            v == value(c0, p)
                        }
                    } by {
                        assert(value(c2, p) == labeled_region(c, cols, t, (x as int, y as int), label, p));
                        assert(value(c, p) == 1 ==> value(c0, p) == 1);
                    }
                }
                label = label + 1;
            } else {
                proof {
                    assert(value(c, (x as int, y as int)) != 1);
                }
            }
            x = x + 1;
        }
        proof {
            assert(scan(c0, cols, t, (y + 1) as nat, 0) == scan(c0, cols, t, y as nat, cols));
            assert(y * cols + cols == (y + 1) * cols) by (nonlinear_arith);
        }
        y = y + 1;
    }
    proof {
        assert forall|p: Cell| in_grid(c0, cols, p) implies {
            let v = #[trigger] value(cells_of(*m), p);
            if value(c0, p) == 1 {
                2 <= v < label
            } else {
                v == value(c0, p)
            }
        } by {
            assert(scanned_before(p, 0, y as int));
        }
    }
    label - 2
}

/// Two differing cells `a` and `b`, alone in the mask, fall in one region exactly when
/// `b` is one jump of at most `t` cells from `a`.
pub proof fn bridging_between_two_cells(c: Seq<Seq<usize>>, cols: nat, t: int, a: Cell, b: Cell)
    requires
        shaped(c, cols),
        in_grid(c, cols, a),
        in_grid(c, cols, b),
        a != b,
        value(c, a) == 1,
        value(c, b) == 1,
        forall|p: Cell| in_grid(c, cols, p) && #[trigger] value(c, p) == 1 ==> p == a || p == b,
    ensures
        in_region(c, cols, t, a, b) == is_jump(t, a, b),
{
    if is_jump(t, a, b) {
        assert forall|s: Set<Cell>|
            closed_under_jumps(c, cols, t, s) && s.contains(a) implies #[trigger] s.contains(b) by {}
    } else {
        let s = Set::empty().insert(a);
        assert forall|x: Cell, y: Cell|
            #![trigger s.contains(x), is_jump(t, x, y)]
            s.contains(x) && in_grid(c, cols, y) && value(c, y) == 1 && is_jump(t, x, y) implies s.contains(y) by {
            assert(x == a);
        }
        assert(closed_under_jumps(c, cols, t, s));
        assert(!s.contains(b));
    }
}

/// A jump reaches exactly `t` cells in each of its five directions: a cell `t` steps
/// away is reached, one `t + 1` steps away is not.
pub proof fn jump_reach_is_threshold(t: int, a: Cell)
    requires
        t >= 1,
    ensures
        is_jump(t, a, (a.0 + t, a.1)),
        !is_jump(t, a, (a.0 + t + 1, a.1)),
        is_jump(t, a, (a.0, a.1 + t)),
        !is_jump(t, a, (a.0, a.1 + t + 1)),
        is_jump(t, a, (a.0 + t, a.1 - t)),
        !is_jump(t, a, (a.0 + t + 1, a.1 - t - 1)),
        is_jump(t, a, (a.0 - t, a.1 + t)),
        !is_jump(t, a, (a.0 - t - 1, a.1 + t + 1)),
        is_jump(t, a, (a.0 + t, a.1 + t)),
        !is_jump(t, a, (a.0 + t + 1, a.1 + t + 1)),
{
}

/// The mask is zero but for two unassigned differing cells `a` and `b`, with `a`
/// met first in row-major order.
pub open spec fn two_cell_mask(c: Seq<Seq<usize>>, cols: nat, a: Cell, b: Cell) -> bool {
    &&& shaped(c, cols)
    &&& in_grid(c, cols, a)
    &&& in_grid(c, cols, b)
    &&& scanned_before(a, b.0, b.1)
    &&& value(c, a) == 1
    &&& value(c, b) == 1
    &&& forall|p: Cell| in_grid(c, cols, p) && p != a && p != b ==> #[trigger] value(c, p) == 0
}

proof fn lemma_fill_all_value(c: Seq<Seq<usize>>, cols: nat, t: int, seed: Cell, label: usize, p: Cell)
    requires
        in_grid(c, cols, p),
    ensures
        value(fill_all(c, cols, t, seed, label), p) == labeled_region(c, cols, t, seed, label, p),
{
}

proof fn lemma_seed_in_region(c: Seq<Seq<usize>>, cols: nat, t: int, seed: Cell)
    ensures
        in_region(c, cols, t, seed, seed),
{
    assert forall|s: Set<Cell>|
        closed_under_jumps(c, cols, t, s) && s.contains(seed) implies #[trigger] s.contains(seed) by {}
}

/// What the scan has done to a two-cell mask on reaching column `x` of row `y`.
proof fn lemma_scan_two_cells(c0: Seq<Seq<usize>>, cols: nat, t: int, a: Cell, b: Cell, y: nat, x: nat)
    requires
        two_cell_mask(c0, cols, a, b),
        x <= cols,
        y < c0.len() || (y == c0.len() && x == 0),
    ensures
        ({
            let (c, l) = scan(c0, cols, t, y, x);
            let bridged = is_jump(t, a, b);
            &&& c.len() == c0.len()
            &&& shaped(c, cols)
            &&& forall|p: Cell| in_grid(c0, cols, p) && p != a && p != b ==> #[trigger] value(c, p) == 0
            &&& if !scanned_before(a, x as int, y as int) {
                c == c0 && l == 2
            } else if !scanned_before(b, x as int, y as int) {
                &&& value(c, a) == 2
                &&& value(c, b) == if bridged { 2usize } else { 1usize }
                &&& l == 3
            } else {
                &&& value(c, a) == 2
                &&& value(c, b) == if bridged { 2usize } else { 3usize }
                &&& l == if bridged { 3int } else { 4int }
            }
        }),
    decreases y, x,
{
    if x > 0 {
        lemma_scan_two_cells(c0, cols, t, a, b, y, (x - 1) as nat);
        let (c1, l1) = scan(c0, cols, t, y, (x - 1) as nat);
        let p: Cell = ((x - 1) as int, y as int);
        let (c, l) = scan(c0, cols, t, y, x);
        assert(in_grid(c0, cols, p));
        if value(c1, p) == 1 {
            assert(p == a || p == b);
            assert forall|q: Cell| in_grid(c0, cols, q) implies #[trigger] value(c, q)
                == labeled_region(c1, cols, t, p, l1 as usize, q) by {
                lemma_fill_all_value(c1, cols, t, p, l1 as usize, q);
            }
            lemma_seed_in_region(c1, cols, t, p);
            if p == a {
                bridging_between_two_cells(c0, cols, t, a, b);
                assert(value(c, a) == 2);
                assert(value(c, b) == if is_jump(t, a, b) { 2usize } else { 1usize });
            } else {
                assert(value(c, a) == 2);
                assert(value(c, b) == 3);
            }
            assert forall|yy: int| 0 <= yy < c.len() implies (#[trigger] c[yy]).len() == cols by {}
        }
    } else if y > 0 {
        lemma_scan_two_cells(c0, cols, t, a, b, (y - 1) as nat, cols);
    }
}

/// With only two differing cells in the mask, grouping gives them one label exactly
/// when the later one is a single jump of at most `t` cells from the earlier one;
/// otherwise each gets a label of its own. Both labels are at least 2.
pub proof fn two_cells_share_a_label_iff_one_jump(c0: Seq<Seq<usize>>, cols: nat, t: int, a: Cell, b: Cell)
    requires
        two_cell_mask(c0, cols, a, b),
    ensures
        2 <= value(grouped(c0, cols, t).0, a),
        2 <= value(grouped(c0, cols, t).0, b),
        (value(grouped(c0, cols, t).0, a) == value(grouped(c0, cols, t).0, b)) == is_jump(t, a, b),
{
    lemma_scan_two_cells(c0, cols, t, a, b, c0.len(), 0);
}

} // verus!
