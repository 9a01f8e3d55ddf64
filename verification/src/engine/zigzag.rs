use vstd::prelude::*;
use vstd::arithmetic::div_mod::{lemma_fundamental_div_mod, lemma_mod_pos_bound};
use super::ScanParams;

verus! {

/// The smaller of two coordinates.
pub open spec fn lower(a: i32, b: i32) -> i32 {
    if a <= b { a } else { b }
}

/// The larger of two coordinates.
pub open spec fn upper(a: i32, b: i32) -> i32 {
    if a <= b { b } else { a }
}

/// A step in pixels as the scan uses it: one that is not positive counts as 1.
pub open spec fn effective_step(step: i32) -> int {
    if step <= 0 { 1 } else { step as int }
}

/// How many of `lo`, `lo + step`, `lo + 2 * step`, ... are at most `hi`.
pub open spec fn grid_count(lo: i32, hi: i32, step: int) -> nat {
    ((hi - lo) / step + 1) as nat
}

/// The coordinates of the scan along one axis from `lo` to `hi`: every
/// `lo + i * step` that is at most `hi`, in increasing order, followed by `hi`
/// itself where `hi` is not one of them.
pub open spec fn axis_points(lo: i32, hi: i32, step: int) -> Seq<i32> {
    let grid = Seq::new(grid_count(lo, hi, step), |i: int| (lo + i * step) as i32);
    if (hi - lo) % step == 0 {
        grid
    } else {
        grid.push(hi)
    }
}

/// The walk along the axis from `lo` to `hi` stays within `i32`: the first
/// coordinate of the grid beyond `hi` can still be computed.
pub open spec fn axis_fits(lo: i32, hi: i32, step: int) -> bool {
    lo + grid_count(lo, hi, step) * step <= i32::MAX
}

/// One column of the scan: the points `(x, ys[j])` in the order of `ys`.
pub open spec fn column(x: i32, ys: Seq<i32>) -> Seq<(i32, i32)> {
    Seq::new(ys.len(), |j: int| (x, ys[j]))
}

/// The zig-zag path over the columns `xs` and the rows `ys`: column `i` at
/// `xs[i]` goes down through `ys` where `i` is even, and up through `ys`
/// reversed where `i` is odd.
pub open spec fn zigzag(xs: Seq<i32>, ys: Seq<i32>) -> Seq<(i32, i32)>
    decreases xs.len(),
{
    if xs.len() == 0 {
        seq![]
    } else {
        let i = xs.len() - 1;
        zigzag(xs.drop_last(), ys) + column(
            xs.last(),
            if i % 2 == 0 { ys } else { ys.reverse() },
        )
    }
}

/// The columns of the scan described by `p`.
pub open spec fn scan_columns(p: ScanParams) -> Seq<i32> {
    axis_points(lower(p.start_x, p.end_x), upper(p.start_x, p.end_x), effective_step(p.x_shift_pixels))
}

/// The rows of the scan described by `p`.
pub open spec fn scan_rows(p: ScanParams) -> Seq<i32> {
    axis_points(lower(p.start_y, p.end_y), upper(p.start_y, p.end_y), effective_step(p.y_step_pixels))
}

/// The points of one pass of the scan described by `p`.
pub open spec fn cycle_points(p: ScanParams) -> Seq<(i32, i32)> {
    zigzag(scan_columns(p), scan_rows(p))
}

/// Both axes of the scan described by `p` can be walked within `i32`.
pub open spec fn cycle_fits(p: ScanParams) -> bool {
    &&& axis_fits(lower(p.start_x, p.end_x), upper(p.start_x, p.end_x), effective_step(p.x_shift_pixels))
    &&& axis_fits(lower(p.start_y, p.end_y), upper(p.start_y, p.end_y), effective_step(p.y_step_pixels))
}

/// Division of a distance `d` by a step: `len` steps stay within `d` exactly
/// when `len` is at most `d / step`.
proof fn lemma_steps_within(d: int, step: int, len: int)
    requires
        d >= 0,
        step >= 1,
        len >= 0,
    ensures
        len * step <= d <==> len <= d / step,
        (d / step) * step + d % step == d,
        0 <= d % step < step,
        0 <= d / step,
{
    lemma_fundamental_div_mod(d, step);
    lemma_mod_pos_bound(d, step);
    let q = d / step;
    let r = d % step;
    assert(q * step + r == d) by (nonlinear_arith)
        requires
            d == step * q + r,
    ;
    assert(q >= 0) by (nonlinear_arith)
        requires
            q * step + r == d,
            d >= 0,
            step >= 1,
            r < step,
    ;
    assert(len * step <= d <==> len <= q) by (nonlinear_arith)
        requires
            q * step + r == d,
            0 <= r < step,
            step >= 1,
            len >= 0,
    ;
}

/// The coordinates of one axis, computed as the scan walks it.
fn axis_coordinates(lo: i32, hi: i32, step: i32) -> (v: Vec<i32>)
    requires
        lo <= hi,
        step >= 1,
        axis_fits(lo, hi, step as int),
    ensures
        v@ == axis_points(lo, hi, step as int),
{
    let ghost d: int = hi - lo;
    let ghost count: int = grid_count(lo, hi, step as int) as int;
    proof {
        lemma_steps_within(d, step as int, 0);
    }
    let mut v: Vec<i32> = Vec::new();
    let mut cur: i32 = lo;
    while cur <= hi
        invariant
            lo <= hi,
            step >= 1,
            d == hi - lo,
            count == d / step as int + 1,
            lo + count * step <= i32::MAX,
            cur == lo + v.len() * step,
            v.len() <= count,
            v@ == Seq::new(v.len() as nat, |i: int| (lo + i * step) as i32),
        decreases count - v.len(),
    {
        proof {
            lemma_steps_within(d, step as int, v.len() as int);
            assert((v.len() + 1) * step == v.len() * step + step) by (nonlinear_arith);
            assert((v.len() + 1) * step <= count * step) by (nonlinear_arith)
                requires
                    v.len() + 1 <= count,
                    step >= 1,
            ;
        }
        v.push(cur);
        cur = cur + step;
        assert(v@ =~= Seq::new(v.len() as nat, |i: int| (lo + i * step) as i32));
    }
    proof {
        lemma_steps_within(d, step as int, v.len() as int);
    }
    assert(v.len() == count);
    let last = v[v.len() - 1];
    proof {
        assert((count - 1) * step == (d / step as int) * step) by (nonlinear_arith)
            requires
                count == d / step as int + 1,
        ;
    }
    if last != hi {
        v.push(hi);
    }
    v
}

/// `v` in reverse order.
fn reversed(v: &Vec<i32>) -> (r: Vec<i32>)
    ensures
        r@ == v@.reverse(),
{
    let mut r: Vec<i32> = Vec::new();
    let n = v.len();
    while r.len() < n
        invariant
            n == v.len(),
            r.len() <= n,
            forall|k: int| 0 <= k < r.len() ==> #[trigger] r@[k] == v@[n - 1 - k],
        decreases n - r.len(),
    {
        let k = n - 1 - r.len();
        r.push(v[k]);
    }
    assert(r@ =~= v@.reverse());
    r
}

/// The points of one pass of the scan, in the order in which they are
/// clicked: a zig-zag over the columns from the left edge of the area to its
/// right edge, down the first column, up the next, and so on.
pub fn generate_cycle_points(params: &ScanParams) -> (points: Vec<(i32, i32)>)
    requires
        cycle_fits(*params),
    ensures
        points@ == cycle_points(*params),
{
    let min_x = if params.start_x <= params.end_x { params.start_x } else { params.end_x };
    let max_x = if params.start_x <= params.end_x { params.end_x } else { params.start_x };
    let min_y = if params.start_y <= params.end_y { params.start_y } else { params.end_y };
    let max_y = if params.start_y <= params.end_y { params.end_y } else { params.start_y };

    let x_shift = if params.x_shift_pixels <= 0 { 1 } else { params.x_shift_pixels };
    let x_points = axis_coordinates(min_x, max_x, x_shift);

    let y_step = if params.y_step_pixels <= 0 { 1 } else { params.y_step_pixels };
    let y_points_down = axis_coordinates(min_y, max_y, y_step);
    let y_points_up = reversed(&y_points_down);

    let ghost xs = x_points@;
    let ghost ys = y_points_down@;
    let mut points: Vec<(i32, i32)> = Vec::new();
    let mut i: usize = 0;
    while i < x_points.len()
        invariant
            xs == x_points@,
            ys == y_points_down@,
            y_points_up@ == ys.reverse(),
            i <= xs.len(),
            points@ == zigzag(xs.take(i as int), ys),
        decreases xs.len() - i,
    {
        let x = x_points[i];
        let column_ys = if i % 2 == 0 { &y_points_down } else { &y_points_up };
        let ghost base = points@;
        let mut j: usize = 0;
        while j < column_ys.len()
            invariant
                points@ == base + Seq::new(j as nat, |k: int| (x, column_ys@[k])),
                j <= column_ys.len(),
            decreases column_ys.len() - j,
        {
            points.push((x, column_ys[j]));
            j = j + 1;
            assert(points@ =~= base + Seq::new(j as nat, |k: int| (x, column_ys@[k])));
        }
        proof {
            let next = xs.take(i + 1);
            assert(next.drop_last() =~= xs.take(i as int));
            assert(column_ys@ == if i % 2 == 0 { ys } else { ys.reverse() });
            assert(points@ =~= zigzag(next, ys));
        }
        i = i + 1;
    }
    assert(xs.take(xs.len() as int) =~= xs);
    points
}

/// Whether the walk along one axis stays within `i32`.
fn axis_walk_fits(lo: i32, hi: i32, step: i32) -> (b: bool)
    requires
        lo <= hi,
        step >= 1,
    ensures
        b == axis_fits(lo, hi, step as int),
{
    let d: u64 = (hi as i64 - lo as i64) as u64;
    let s: u64 = step as u64;
    let q: u64 = d / s;
    proof {
        lemma_steps_within(d as int, s as int, q as int);
        assert((q + 1) * s == q * s + s) by (nonlinear_arith);
    }
    let span: u64 = (q + 1) * s;
    (lo as i64) + (span as i64) <= i32::MAX as i64
}

/// Whether the scan described by `params` can be walked within `i32`, that
/// is, whether `generate_cycle_points` can be called on it.
pub fn scan_fits(params: &ScanParams) -> (b: bool)
    ensures
        b == cycle_fits(*params),
{
    let min_x = if params.start_x <= params.end_x { params.start_x } else { params.end_x };
    let max_x = if params.start_x <= params.end_x { params.end_x } else { params.start_x };
    let min_y = if params.start_y <= params.end_y { params.start_y } else { params.end_y };
    let max_y = if params.start_y <= params.end_y { params.end_y } else { params.start_y };
    let x_shift = if params.x_shift_pixels <= 0 { 1 } else { params.x_shift_pixels };
    let y_step = if params.y_step_pixels <= 0 { 1 } else { params.y_step_pixels };
    axis_walk_fits(min_x, max_x, x_shift) && axis_walk_fits(min_y, max_y, y_step)
}

/// The position of row `j` of column `i` in a path whose columns have `rows` points.
pub open spec fn cell(i: int, j: int, rows: int) -> int {
    i * rows + j
}

/// The coordinates of an axis start at `lo`, end at `hi`, and strictly
/// increase in between.
pub proof fn lemma_axis_points_shape(lo: i32, hi: i32, step: int)
    requires
        lo <= hi,
        step >= 1,
    ensures
        axis_points(lo, hi, step).len() >= 1,
        axis_points(lo, hi, step)[0] == lo,
        axis_points(lo, hi, step).last() == hi,
        forall|a: int, b: int|
            0 <= a < b < axis_points(lo, hi, step).len() ==> #[trigger] axis_points(lo, hi, step)[a]
                < #[trigger] axis_points(lo, hi, step)[b],
        forall|a: int|
            0 <= a < axis_points(lo, hi, step).len() ==> lo <= #[trigger] axis_points(lo, hi, step)[a]
                <= hi,
{
    let d: int = hi - lo;
    let count = grid_count(lo, hi, step) as int;
    lemma_steps_within(d, step, 0);
    let pts = axis_points(lo, hi, step);
    assert forall|a: int| 0 <= a < count implies lo <= #[trigger] pts[a] <= hi by {
        lemma_steps_within(d, step, a);
        assert(0 <= a * step) by (nonlinear_arith)
            requires
                a >= 0,
                step >= 1,
        ;
    }
    assert forall|a: int, b: int| 0 <= a < b < count implies #[trigger] pts[a] < #[trigger] pts[b] by {
        lemma_steps_within(d, step, a);
        lemma_steps_within(d, step, b);
        assert(0 <= a * step) by (nonlinear_arith)
            requires
                a >= 0,
                step >= 1,
        ;
        assert(a * step < b * step) by (nonlinear_arith)
            requires
                a < b,
                step >= 1,
        ;
    }
    assert((count - 1) * step == (d / step) * step) by (nonlinear_arith)
        requires
            count == d / step + 1,
    ;
    assert(pts[0] == lo);
    if d % step == 0 {
        assert(pts.last() == hi);
    } else {
        assert(pts.last() == hi);
        assert(pts[count - 1] < hi);
    }
}

/// The layout of the zig-zag path: it has one point per column and row, and
/// the point in row `j` of column `i` is `(xs[i], ys[j])` where `i` is even
/// and `(xs[i], ys[ys.len() - 1 - j])` where `i` is odd.
pub proof fn lemma_zigzag_layout(xs: Seq<i32>, ys: Seq<i32>)
    ensures
        zigzag(xs, ys).len() == xs.len() * ys.len(),
        forall|i: int, j: int|
            0 <= i < xs.len() && 0 <= j < ys.len() ==> zigzag(xs, ys)[#[trigger] cell(i, j, ys.len() as int)]
                == (xs[i], if i % 2 == 0 { ys[j] } else { ys[ys.len() - 1 - j] }),
    decreases xs.len(),
{
    let m = ys.len() as int;
    if xs.len() > 0 {
        let n = xs.len() as int;
        let prev = xs.drop_last();
        lemma_zigzag_layout(prev, ys);
        assert((n - 1) * m + m == n * m) by (nonlinear_arith);
        let z = zigzag(xs, ys);
        let c = if (n - 1) % 2 == 0 { ys } else { ys.reverse() };
        assert(z == zigzag(prev, ys) + column(xs.last(), c));
        assert forall|i: int, j: int| 0 <= i < n && 0 <= j < m implies z[cell(i, j, m)] == (
            xs[i],
            if i % 2 == 0 { ys[j] } else { ys[m - 1 - j] },
        ) by {
            if i < n - 1 {
                assert(i * m + j < (n - 1) * m) by (nonlinear_arith)
                    requires
                        i < n - 1,
                        0 <= j < m,
                ;
                assert(0 <= i * m + j) by (nonlinear_arith)
                    requires
                        0 <= i,
                        0 <= j,
                        0 <= m,
                ;
                assert(prev[i] == xs[i]);
            } else {
                assert(i * m + j - (n - 1) * m == j) by (nonlinear_arith)
                    requires
                        i == n - 1,
                ;
            }
        }
    }
}

/// What one pass of the scan covers: one point per column and row; every
/// point lies in the area between the two corners; the columns run from the
/// left edge to the right edge and the rows from the top edge to the bottom
/// edge, each strictly increasing; the pass starts at the top left corner; and
/// where it moves from one column to the next it stays on the same row.
pub proof fn lemma_cycle_points_cover(p: ScanParams)
    ensures
        ({
            let xs = scan_columns(p);
            let ys = scan_rows(p);
            let pts = cycle_points(p);
            &&& xs[0] == lower(p.start_x, p.end_x) && xs.last() == upper(p.start_x, p.end_x)
            &&& ys[0] == lower(p.start_y, p.end_y) && ys.last() == upper(p.start_y, p.end_y)
            &&& forall|a: int, b: int| 0 <= a < b < xs.len() ==> #[trigger] xs[a] < #[trigger] xs[b]
            &&& forall|a: int, b: int| 0 <= a < b < ys.len() ==> #[trigger] ys[a] < #[trigger] ys[b]
            &&& pts.len() == xs.len() * ys.len()
            &&& pts.len() >= 1
            &&& pts[0] == (lower(p.start_x, p.end_x), lower(p.start_y, p.end_y))
            &&& forall|k: int|
                0 <= k < pts.len() ==> lower(p.start_x, p.end_x) <= (#[trigger] pts[k]).0 <= upper(
                    p.start_x,
                    p.end_x,
                ) && lower(p.start_y, p.end_y) <= pts[k].1 <= upper(p.start_y, p.end_y)
            &&& forall|i: int|
                0 <= i < xs.len() - 1 ==> (#[trigger] pts[cell(i, ys.len() - 1, ys.len() as int)]).1
                    == pts[cell(i + 1, 0, ys.len() as int)].1
        }),
{
    let lx = lower(p.start_x, p.end_x);
    let hx = upper(p.start_x, p.end_x);
    let ly = lower(p.start_y, p.end_y);
    let hy = upper(p.start_y, p.end_y);
    let xs = scan_columns(p);
    let ys = scan_rows(p);
    let pts = cycle_points(p);
    let m = ys.len() as int;
    lemma_axis_points_shape(lx, hx, effective_step(p.x_shift_pixels));
    lemma_axis_points_shape(ly, hy, effective_step(p.y_step_pixels));
    lemma_zigzag_layout(xs, ys);
    assert(xs.len() * ys.len() >= 1) by (nonlinear_arith)
        requires
            xs.len() >= 1,
            ys.len() >= 1,
    ;
    assert(pts[cell(0, 0, m)] == (xs[0], ys[0]));
    assert forall|k: int| 0 <= k < pts.len() implies lx <= (#[trigger] pts[k]).0 <= hx && ly <= pts[k].1
        <= hy by {
        let i = k / m;
        let j = k % m;
        lemma_fundamental_div_mod(k, m);
        lemma_mod_pos_bound(k, m);
        assert(cell(i, j, m) == k) by (nonlinear_arith)
            requires
                k == m * i + j,
        ;
        assert(0 <= i < xs.len()) by (nonlinear_arith)
            requires
                k == m * i + j,
                0 <= j < m,
                0 <= k < xs.len() * m,
        ;
        assert(pts[cell(i, j, m)] == (xs[i], if i % 2 == 0 { ys[j] } else { ys[m - 1 - j] }));
    }
    assert forall|i: int| 0 <= i < xs.len() - 1 implies (#[trigger] pts[cell(i, m - 1, m)]).1 == pts[cell(
        i + 1,
        0,
        m,
    )].1 by {
        assert(pts[cell(i, m - 1, m)] == (xs[i], if i % 2 == 0 { ys[m - 1] } else { ys[m - 1 - (m - 1)] }));
        assert(pts[cell(i + 1, 0, m)] == (xs[i + 1], if (i + 1) % 2 == 0 { ys[0] } else { ys[m - 1 - 0] }));
    }
}

/// The coordinates of an axis are the whole grid: `grid_count` is the number
/// of grid coordinates `lo + k * step` within `[lo, hi]` (the last of them is
/// at most `hi`, the next is beyond it), the `k`-th coordinate is
/// `lo + k * step` for each of them, no two neighbouring coordinates are
/// further apart than `step`, and there is one more coordinate, `hi`, exactly
/// when `hi` is not on the grid.
pub proof fn lemma_axis_covers_grid(lo: i32, hi: i32, step: int)
    requires
        lo <= hi,
        step >= 1,
    ensures
        grid_count(lo, hi, step) >= 1,
        lo + (grid_count(lo, hi, step) - 1) * step <= hi < lo + grid_count(lo, hi, step) * step,
        forall|k: int|
            #![trigger axis_points(lo, hi, step)[k]]
            0 <= k < grid_count(lo, hi, step) ==> axis_points(lo, hi, step)[k] == lo + k * step,
        forall|i: int|
            #![trigger axis_points(lo, hi, step)[i]]
            0 <= i < axis_points(lo, hi, step).len() - 1 ==> 0 < axis_points(lo, hi, step)[i + 1]
                - axis_points(lo, hi, step)[i] <= step,
        axis_points(lo, hi, step).len() == grid_count(lo, hi, step) + (if (hi - lo) % step == 0 {
            0int
        } else {
            1int
        }),
{
    let d: int = hi - lo;
    let count = grid_count(lo, hi, step) as int;
    let pts = axis_points(lo, hi, step);
    lemma_steps_within(d, step, 0);
    assert forall|k: int| 0 <= k < count implies #[trigger] pts[k] == lo + k * step by {
        lemma_steps_within(d, step, k);
        lemma_steps_within(d, step, count - 1);
    }
    lemma_steps_within(d, step, count - 1);
    lemma_steps_within(d, step, count);
    assert forall|i: int| 0 <= i < pts.len() - 1 implies 0 < pts[i + 1] - #[trigger] pts[i] <= step by {
        lemma_steps_within(d, step, i);
        assert((i + 1) * step == i * step + step) by (nonlinear_arith);
        if i + 1 < count {
            lemma_steps_within(d, step, i + 1);
        } else {
            assert((count - 1) * step == (d / step) * step) by (nonlinear_arith)
                requires
                    count == d / step + 1,
            ;
            assert(0 <= i * step) by (nonlinear_arith)
                requires
                    i >= 0,
                    step >= 1,
            ;
        }
    }
}

/// Every column of the grid is scanned: for every `k` with
/// `left + k * shift` within the area, the point of that column on the top
/// row is one of the points of the pass.
pub proof fn lemma_every_grid_column_scanned(p: ScanParams, k: int)
    requires
        0 <= k,
        lower(p.start_x, p.end_x) + k * effective_step(p.x_shift_pixels) <= upper(p.start_x, p.end_x),
    ensures
        cycle_points(p).contains(
            (
                (lower(p.start_x, p.end_x) + k * effective_step(p.x_shift_pixels)) as i32,
                lower(p.start_y, p.end_y),
            ),
        ),
{
    let lx = lower(p.start_x, p.end_x);
    let hx = upper(p.start_x, p.end_x);
    let sx = effective_step(p.x_shift_pixels);
    let xs = scan_columns(p);
    let ys = scan_rows(p);
    let m = ys.len() as int;
    lemma_axis_covers_grid(lx, hx, sx);
    lemma_axis_points_shape(lx, hx, sx);
    lemma_axis_points_shape(lower(p.start_y, p.end_y), upper(p.start_y, p.end_y), effective_step(p.y_step_pixels));
    lemma_zigzag_layout(xs, ys);
    assert(k < grid_count(lx, hx, sx)) by {
        assert(k * sx < grid_count(lx, hx, sx) * sx);
        assert(k < grid_count(lx, hx, sx)) by (nonlinear_arith)
            requires
                k * sx < grid_count(lx, hx, sx) * sx,
                sx >= 1,
        ;
    }
    assert(xs[k] == lx + k * sx);
    let j = if k % 2 == 0 { 0 } else { m - 1 };
    let idx = cell(k, j, m);
    assert(cycle_points(p)[idx] == (xs[k], if k % 2 == 0 { ys[j] } else { ys[m - 1 - j] }));
    assert(0 <= idx < cycle_points(p).len()) by {
        assert(0 <= k * m + j < xs.len() * m) by (nonlinear_arith)
            requires
                0 <= k < xs.len(),
                0 <= j < m,
        ;
    }
}

/// A pass reaches all four corners of the area.
pub proof fn lemma_cycle_points_corners(p: ScanParams)
    ensures
        cycle_points(p).contains((lower(p.start_x, p.end_x), lower(p.start_y, p.end_y))),
        cycle_points(p).contains((lower(p.start_x, p.end_x), upper(p.start_y, p.end_y))),
        cycle_points(p).contains((upper(p.start_x, p.end_x), lower(p.start_y, p.end_y))),
        cycle_points(p).contains((upper(p.start_x, p.end_x), upper(p.start_y, p.end_y))),
{
    let lx = lower(p.start_x, p.end_x);
    let hx = upper(p.start_x, p.end_x);
    let ly = lower(p.start_y, p.end_y);
    let hy = upper(p.start_y, p.end_y);
    let xs = scan_columns(p);
    let ys = scan_rows(p);
    let pts = cycle_points(p);
    let n = xs.len() as int;
    let m = ys.len() as int;
    lemma_axis_points_shape(lx, hx, effective_step(p.x_shift_pixels));
    lemma_axis_points_shape(ly, hy, effective_step(p.y_step_pixels));
    lemma_zigzag_layout(xs, ys);
    assert forall|i: int, j: int| 0 <= i < n && 0 <= j < m implies 0 <= #[trigger] cell(i, j, m)
        < pts.len() by {
        assert(0 <= i * m + j < n * m) by (nonlinear_arith)
            requires
                0 <= i < n,
                0 <= j < m,
        ;
    }
    assert(pts[cell(0, 0, m)] == (lx, ly));
    assert(pts[cell(0, m - 1, m)] == (lx, hy));
    let a = pts[cell(n - 1, 0, m)];
    let b = pts[cell(n - 1, m - 1, m)];
    if (n - 1) % 2 == 0 {
        assert(a == (hx, ly));
        assert(b == (hx, hy));
    } else {
        assert(a == (hx, hy));
        assert(b == (hx, ly));
    }
}

} // verus!
