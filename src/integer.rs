use vstd::prelude::*;
use crate::canvas::{FixedSizeCanvas, HorizontalLineCanvas};

verus! {

/// The midpoint decision at octant point (x, y) of a circle of radius `r`: while it is
/// negative the boundary stays on row `y` for the next column.
pub open spec fn decision(x: int, y: int, r: int) -> int {
    (x + 1) * (x + 1) + y * y - y - r * r
}

/// Row offset of the octant boundary at column offset `k` of the midpoint walk.
pub open spec fn octant_y(r: int, k: nat) -> int
    decreases k,
{
    if k == 0 {
        r
    } else {
        let y = octant_y(r, (k - 1) as nat);
        if decision(k - 1, y, r) < 0 {
            y
        } else {
            y - 1
        }
    }
}

/// Whether the walk draws at column offset `k` (it runs while the column offset does not
/// exceed the row offset).
pub open spec fn step_active(r: int, k: nat) -> bool {
    k <= octant_y(r, k)
}

/// Whether (i, j) lies on the spans `cx - a ..= cx + a` of the rows `cy - b` and `cy + b`.
pub open spec fn span_pair_covers(cx: int, cy: int, a: int, b: int, i: int, j: int) -> bool {
    (j == cy - b || j == cy + b) && cx - a <= i <= cx + a
}

/// Whether one of the four spans drawn at step `k` covers (i, j).
pub open spec fn step_covers(cx: int, cy: int, r: int, k: nat, i: int, j: int) -> bool {
    span_pair_covers(cx, cy, k as int, octant_y(r, k), i, j) || span_pair_covers(
        cx,
        cy,
        octant_y(r, k),
        k as int,
        i,
        j,
    )
}

/// Whether one of the steps before `n` covers (i, j).
pub open spec fn covered_before(cx: int, cy: int, r: int, n: nat, i: int, j: int) -> bool {
    exists|m: nat| m < n && #[trigger] step_covers(cx, cy, r, m, i, j)
}

/// Whether the filled midpoint disc of radius `r` centred on (cx, cy) covers (i, j).
pub open spec fn disc_covers(cx: int, cy: int, r: int, i: int, j: int) -> bool {
    exists|k: nat| step_active(r, k) && #[trigger] step_covers(cx, cy, r, k, i, j)
}

/// Draws filled circles with the integer midpoint algorithm, one span per row and octant
/// step, without anti-aliasing.
pub struct IntegerRasterizer;

proof fn lemma_octant_step(r: int, k: nat)
    ensures
        octant_y(r, k) - 1 <= octant_y(r, k + 1) <= octant_y(r, k),
{
    assert(((k + 1) - 1) as nat == k);
}

proof fn lemma_inactive_after(r: int, k: nat, m: nat)
    requires
        !step_active(r, k),
        k <= m,
    ensures
        !step_active(r, m),
    decreases m - k,
{
    if k < m {
        lemma_inactive_after(r, k, (m - 1) as nat);
        lemma_octant_step(r, (m - 1) as nat);
    }
}

proof fn lemma_square_bound(a: int, k: int)
    requires
        -k <= a <= k,
    ensures
        0 <= a * a <= k * k,
{
    assert(0 <= a * a <= k * k) by (nonlinear_arith)
        requires
            -k <= a <= k,
    ;
}

proof fn lemma_decision_bound(x: int, y: int, r: int)
    requires
        -0x1_0000_0000 <= x <= 0x1_0000_0000,
        -0x1_0000_0000 <= y <= 0x1_0000_0000,
        -0x1_0000_0000 <= r <= 0x1_0000_0000,
    ensures
        -0x10_0000_0000_0000_0000 <= decision(x, y, r) <= 0x10_0000_0000_0000_0000,
{
    lemma_square_bound(x + 1, 0x1_0000_0001);
    lemma_square_bound(y, 0x1_0000_0000);
    lemma_square_bound(r, 0x1_0000_0000);
}

proof fn lemma_octant_at_most_radius(r: int, k: nat)
    ensures
        octant_y(r, k) <= r,
    decreases k,
{
    if k > 0 {
        lemma_octant_at_most_radius(r, (k - 1) as nat);
        lemma_octant_step(r, (k - 1) as nat);
    }
}

/// Every cell of a midpoint disc lies in the square of side `2r + 1` centred on its centre.
pub proof fn lemma_disc_in_bounding_box(cx: int, cy: int, r: int, i: int, j: int)
    requires
        disc_covers(cx, cy, r, i, j),
    ensures
        cx - r <= i <= cx + r,
        cy - r <= j <= cy + r,
{
    let k = choose|k: nat| step_active(r, k) && #[trigger] step_covers(cx, cy, r, k, i, j);
    lemma_octant_at_most_radius(r, k);
}

/// A circle whose bounding square misses a `w` x `h` canvas covers none of its cells, so
/// drawing it leaves the canvas as it was.
pub proof fn lemma_off_canvas_draws_nothing(cx: int, cy: int, r: int, w: int, h: int, i: int, j: int)
    requires
        cx + r < 0 || cy + r < 0 || cx - r >= w || cy - r >= h,
        0 <= i < w,
        0 <= j < h,
    ensures
        !disc_covers(cx, cy, r, i, j),
{
    if disc_covers(cx, cy, r, i, j) {
        lemma_disc_in_bounding_box(cx, cy, r, i, j);
    }
}

/// A circle of radius zero covers exactly its centre cell.
pub proof fn lemma_zero_radius_single_cell(cx: int, cy: int, i: int, j: int)
    ensures
        disc_covers(cx, cy, 0, i, j) <==> (i == cx && j == cy),
{
    assert(octant_y(0, 0) == 0);
    assert(octant_y(0, 1) == -1);
    assert(!step_active(0, 1));
    if i == cx && j == cy {
        assert(step_active(0, 0) && step_covers(cx, cy, 0, 0, i, j));
    }
    if disc_covers(cx, cy, 0, i, j) {
        let k = choose|k: nat| step_active(0, k) && #[trigger] step_covers(cx, cy, 0, k, i, j);
        if k >= 1 {
            lemma_inactive_after(0, 1, k);
        }
    }
}

proof fn lemma_square_monotone(x: int, y: int)
    requires
        0 <= x <= y,
    ensures
        x * x <= y * y,
{
    assert(x * x <= y * y) by (nonlinear_arith)
        requires
            0 <= x <= y,
    ;
}

proof fn lemma_octant_monotone(r: int, m: nat, k: nat)
    requires
        m <= k,
    ensures
        octant_y(r, k) <= octant_y(r, m),
    decreases k - m,
{
    if m < k {
        lemma_octant_monotone(r, m, (k - 1) as nat);
        lemma_octant_step(r, (k - 1) as nat);
    }
}

proof fn lemma_active_prefix(r: int, m: nat, k: nat)
    requires
        m <= k,
        step_active(r, k),
    ensures
        step_active(r, m),
{
    if !step_active(r, m) {
        lemma_inactive_after(r, m, k);
    }
}

/// An active step lies inside the circle widened by half a cell: k² + y² - y <= r².
proof fn lemma_active_inside(r: int, k: nat)
    requires
        r >= 0,
        step_active(r, k),
    ensures
        k * k + octant_y(r, k) * octant_y(r, k) - octant_y(r, k) <= r * r,
    decreases k,
{
    if k > 0 {
        let km = (k - 1) as nat;
        lemma_active_prefix(r, km, k);
        lemma_active_inside(r, km);
        let yp = octant_y(r, km);
        assert(((km + 1) - 1) as nat == km);
        assert(octant_y(r, k) == if decision(km as int, yp, r) < 0 {
            yp
        } else {
            yp - 1
        });
        if decision(km as int, yp, r) >= 0 {
            assert(k * k + (yp - 1) * (yp - 1) - (yp - 1) <= r * r) by (nonlinear_arith)
                requires
                    km * km + yp * yp - yp <= r * r,
                    k == km + 1,
                    k <= yp - 1,
            ;
            assert(octant_y(r, k) == yp - 1);
        } else {
            assert(k * k + yp * yp - yp - r * r == decision(km as int, yp, r)) by (nonlinear_arith)
                requires
                    k == km + 1,
            ;
            assert(octant_y(r, k) == yp);
        }
    } else {
        assert(octant_y(r, 0) == r);
        assert(r * r - r <= r * r);
    }
}

/// While every earlier step is active, the cell just above the boundary is outside the
/// circle: k² + (y + 1)² > r².
proof fn lemma_above_outside(r: int, k: nat)
    requires
        r >= 0,
        forall|m: nat| m < k ==> step_active(r, m),
    ensures
        k * k + (octant_y(r, k) + 1) * (octant_y(r, k) + 1) > r * r,
    decreases k,
{
    if k == 0 {
        assert((r + 1) * (r + 1) > r * r) by (nonlinear_arith)
            requires
                r >= 0,
        ;
    } else {
        let km = (k - 1) as nat;
        lemma_above_outside(r, km);
        assert(step_active(r, km));
        let yp = octant_y(r, km);
        assert(((km + 1) - 1) as nat == km);
        assert(octant_y(r, k) == if decision(km as int, yp, r) < 0 {
            yp
        } else {
            yp - 1
        });
        if decision(km as int, yp, r) < 0 {
            assert(k * k + (yp + 1) * (yp + 1) > r * r) by (nonlinear_arith)
                requires
                    km * km + (yp + 1) * (yp + 1) > r * r,
                    k == km + 1,
                    km >= 0,
            ;
        } else if yp > 0 {
            assert(k * k + yp * yp > r * r) by (nonlinear_arith)
                requires
                    decision(km as int, yp, r) >= 0,
                    k == km + 1,
                    yp > 0,
            ;
        } else {
            assert(km == 0 && yp == 0 && r == 0);
            assert(k * k + yp * yp > r * r);
        }
    }
}

/// Where the boundary falls below row offset `b` within the first `n` steps, some step has
/// the boundary exactly on `b` and the next one below it.
proof fn lemma_last_step_on_row(r: int, b: int, n: nat) -> (k: nat)
    requires
        octant_y(r, 0) >= b,
        octant_y(r, n) < b,
    ensures
        k < n,
        octant_y(r, k) == b,
        octant_y(r, k + 1) == b - 1,
    decreases n,
{
    let nm = (n - 1) as nat;
    lemma_octant_step(r, nm);
    assert(nm + 1 == n);
    if octant_y(r, nm) < b {
        lemma_last_step_on_row(r, b, nm)
    } else {
        nm
    }
}

/// An inactive step is preceded by a first inactive one.
proof fn lemma_first_inactive(r: int, n: nat) -> (k: nat)
    requires
        !step_active(r, n),
    ensures
        k <= n,
        !step_active(r, k),
        forall|m: nat| m < k ==> step_active(r, m),
    decreases n,
{
    if n == 0 {
        0
    } else if !step_active(r, (n - 1) as nat) {
        lemma_first_inactive(r, (n - 1) as nat)
    } else {
        assert forall|m: nat| m < n implies step_active(r, m) by {
            lemma_active_prefix(r, m, (n - 1) as nat);
        }
        n
    }
}

/// The midpoint disc of radius `r >= 0` is solid and round: it covers every cell whose
/// offset (dx, dy) from the centre has dx² + dy² <= r², and no cell with
/// dx² + dy² > r² + r.
pub proof fn lemma_disc_geometry(cx: int, cy: int, r: int, i: int, j: int)
    requires
        r >= 0,
    ensures
        (i - cx) * (i - cx) + (j - cy) * (j - cy) <= r * r ==> disc_covers(cx, cy, r, i, j),
        disc_covers(cx, cy, r, i, j) ==> (i - cx) * (i - cx) + (j - cy) * (j - cy) <= r * r + r,
{
    let a = if i >= cx {
        i - cx
    } else {
        cx - i
    };
    let b = if j >= cy {
        j - cy
    } else {
        cy - j
    };
    assert(a * a == (i - cx) * (i - cx) && b * b == (j - cy) * (j - cy)) by (nonlinear_arith)
        requires
            a == i - cx || a == cx - i,
            b == j - cy || b == cy - j,
    ;
    if disc_covers(cx, cy, r, i, j) {
        let k = choose|k: nat| step_active(r, k) && #[trigger] step_covers(cx, cy, r, k, i, j);
        let y = octant_y(r, k);
        lemma_active_inside(r, k);
        lemma_octant_at_most_radius(r, k);
        if span_pair_covers(cx, cy, k as int, y, i, j) {
            lemma_square_bound(i - cx, k as int);
            assert((j - cy) * (j - cy) == y * y) by (nonlinear_arith)
                requires
                    j - cy == y || j - cy == -y,
            ;
        } else {
            lemma_square_bound(i - cx, y);
            assert((j - cy) * (j - cy) == k * k) by (nonlinear_arith)
                requires
                    j - cy == k || j - cy == -k,
            ;
        }
    }
    if a * a + b * b <= r * r {
        lemma_square_monotone(0, a);
        lemma_square_monotone(0, b);
        if b > r {
            lemma_square_monotone(r, b);
            assert(r * r < b * b) by (nonlinear_arith)
                requires
                    r < b,
                    r >= 0,
            ;
        }
        assert(b <= r);
        let bn = b as nat;
        if a <= b {
            if step_active(r, bn) {
                lemma_octant_monotone(r, 0, bn);
                assert(span_pair_covers(cx, cy, octant_y(r, bn), bn as int, i, j));
                assert(step_covers(cx, cy, r, bn, i, j));
            } else {
                let k = lemma_last_step_on_row(r, b, bn);
                assert forall|m: nat| m < k + 1 implies step_active(r, m) by {
                    lemma_octant_monotone(r, m, k);
                }
                lemma_above_outside(r, k + 1);
                if a > k {
                    lemma_square_monotone(k + 1 as int, a);
                }
                assert(step_active(r, k));
                assert(span_pair_covers(cx, cy, k as int, octant_y(r, k), i, j));
                assert(step_covers(cx, cy, r, k, i, j));
            }
        } else {
            if step_active(r, bn) {
                assert forall|m: nat| m < bn implies step_active(r, m) by {
                    lemma_active_prefix(r, m, bn);
                }
                lemma_above_outside(r, bn);
                let y = octant_y(r, bn);
                if a > y {
                    lemma_square_monotone(y + 1, a);
                }
                assert(span_pair_covers(cx, cy, y, bn as int, i, j));
                assert(step_covers(cx, cy, r, bn, i, j));
            } else {
                let k = lemma_first_inactive(r, bn);
                lemma_above_outside(r, k);
                if k > 0 {
                    lemma_octant_step(r, (k - 1) as nat);
                    assert(((k - 1) as nat + 1) as nat == k);
                    lemma_active_prefix(r, (k - 1) as nat, (k - 1) as nat);
                }
                let y = octant_y(r, k);
                assert(y + 1 <= k);
                lemma_square_monotone(y + 1, k as int);
                lemma_square_monotone(k as int, b);
                lemma_square_monotone(b, a);
                assert(false);
            }
        }
    }
}

impl IntegerRasterizer {
    /// Fills the columns `cx - a ..= cx + a` of row `row`, clipped to the canvas.
    fn draw_span<P: View + Copy, C: HorizontalLineCanvas<P>>(
        canvas: &mut C,
        cx: i64,
        a: i64,
        row: i64,
        paint: P,
    )
        requires
            old(canvas).well_formed(),
            -0x100_0000_0000 <= cx <= 0x100_0000_0000,
            -0x100_0000_0000 <= a <= 0x100_0000_0000,
        ensures
            final(canvas).well_formed(),
            final(canvas).width_spec() == old(canvas).width_spec(),
            final(canvas).height_spec() == old(canvas).height_spec(),
            forall|i: int, j: int|
                0 <= i < final(canvas).width_spec() && 0 <= j < final(canvas).height_spec()
                    ==> #[trigger] final(canvas).pixel(i, j) == if j == row && cx - a <= i <= cx
                    + a {
                    paint@
                } else {
                    old(canvas).pixel(i, j)
                },
    {
        let w = canvas.width();
        let h = canvas.height();
        if row < 0 || row >= h as i64 {
            return;
        }
        let lo: i64 = if cx - a < 0 {
            0
        } else {
            cx - a
        };
        let hi: i64 = if cx + a + 1 > w as i64 {
            w as i64
        } else {
            cx + a + 1
        };
        if lo < hi {
            canvas.draw_horizontal_line(lo as u32, hi as u32, row as u32, paint);
        }
    }

    /// Fills the columns `cx - a ..= cx + a` of the rows `cy - b` and `cy + b`, clipped to
    /// the canvas.
    fn draw_span_pair<P: View + Copy, C: HorizontalLineCanvas<P>>(
        canvas: &mut C,
        cx: i64,
        cy: i64,
        a: i64,
        b: i64,
        paint: P,
    )
        requires
            old(canvas).well_formed(),
            -0x100_0000_0000 <= cx <= 0x100_0000_0000,
            -0x100_0000_0000 <= cy <= 0x100_0000_0000,
            -0x100_0000_0000 <= a <= 0x100_0000_0000,
            -0x100_0000_0000 <= b <= 0x100_0000_0000,
        ensures
            final(canvas).well_formed(),
            final(canvas).width_spec() == old(canvas).width_spec(),
            final(canvas).height_spec() == old(canvas).height_spec(),
            forall|i: int, j: int|
                0 <= i < final(canvas).width_spec() && 0 <= j < final(canvas).height_spec()
                    ==> #[trigger] final(canvas).pixel(i, j) == if span_pair_covers(
                    cx as int,
                    cy as int,
                    a as int,
                    b as int,
                    i,
                    j,
                ) {
                    paint@
                } else {
                    old(canvas).pixel(i, j)
                },
    {
        Self::draw_span(canvas, cx, a, cy - b, paint);
        Self::draw_span(canvas, cx, a, cy + b, paint);
    }

    /// Draws the filled midpoint disc of radius `r` centred on (cx, cy) in `paint`, clipped
    /// to the canvas; a negative radius draws nothing.
    pub fn draw_filled_circle<P: View + Copy, C: HorizontalLineCanvas<P>>(
        canvas: &mut C,
        cx: i32,
        cy: i32,
        r: i32,
        paint: P,
    )
        requires
            old(canvas).well_formed(),
        ensures
            final(canvas).well_formed(),
            final(canvas).width_spec() == old(canvas).width_spec(),
            final(canvas).height_spec() == old(canvas).height_spec(),
            forall|i: int, j: int|
                0 <= i < final(canvas).width_spec() && 0 <= j < final(canvas).height_spec()
                    ==> #[trigger] final(canvas).pixel(i, j) == if disc_covers(
                    cx as int,
                    cy as int,
                    r as int,
                    i,
                    j,
                ) {
                    paint@
                } else {
                    old(canvas).pixel(i, j)
                },
    {
        let ghost w = canvas.width_spec();
        let ghost h = canvas.height_spec();
        let x0 = cx as i64;
        let y0 = cy as i64;
        let mut x: i64 = 0;
        let mut y: i64 = r as i64;
        let mut p: i128 = 1 - r as i128;
        while x <= y
            invariant
                canvas.well_formed(),
                canvas.width_spec() == w,
                canvas.height_spec() == h,
                w == old(canvas).width_spec(),
                h == old(canvas).height_spec(),
                0 <= x,
                y <= r,
                x == 0 || x - 2 <= y,
                x <= y + 2 || x == 0,
                i32::MIN <= y,
                x0 == cx,
                y0 == cy,
                y == octant_y(r as int, x as nat),
                p == decision(x as int, y as int, r as int),
                forall|m: nat| m < x ==> step_active(r as int, m),
                forall|i: int, j: int|
                    0 <= i < w && 0 <= j < h ==> #[trigger] canvas.pixel(i, j) == if covered_before(
                        cx as int,
                        cy as int,
                        r as int,
                        x as nat,
                        i,
                        j,
                    ) {
                        paint@
                    } else {
                        old(canvas).pixel(i, j)
                    },
            decreases y + 2 - x,
        {
            Self::draw_span_pair(canvas, x0, y0, x, y, paint);
            Self::draw_span_pair(canvas, x0, y0, y, x, paint);
            proof {
                assert forall|i: int, j: int| 0 <= i < w && 0 <= j < h implies #[trigger] canvas.pixel(
                    i,
                    j,
                ) == if covered_before(cx as int, cy as int, r as int, (x + 1) as nat, i, j) {
                    paint@
                } else {
                    old(canvas).pixel(i, j)
                } by {
                    let k = x as nat;
                    if step_covers(cx as int, cy as int, r as int, k, i, j) {
                        assert(covered_before(cx as int, cy as int, r as int, (x + 1) as nat, i, j));
                    } else if covered_before(cx as int, cy as int, r as int, k, i, j) {
                        let m = choose|m: nat| m < k && #[trigger] step_covers(cx as int, cy as int, r as int, m, i, j);
                        assert(m < x + 1);
                        assert(covered_before(cx as int, cy as int, r as int, (x + 1) as nat, i, j));
                    } else {
                        assert forall|m: nat| m < x + 1 implies !#[trigger] step_covers(
                            cx as int,
                            cy as int,
                            r as int,
                            m,
                            i,
                            j,
                        ) by {
                            if m < k {
                                assert(!step_covers(cx as int, cy as int, r as int, m, i, j));
                            }
                        }
                    }
                }
                lemma_decision_bound(x as int, y as int, r as int);
                lemma_octant_step(r as int, x as nat);
                assert(((x + 1) - 1) as nat == x as nat);
            }
            if p < 0 {
                x = x + 1;
                assert(p + 2 * x + 1 == decision(x as int, y as int, r as int)) by (nonlinear_arith)
                    requires
                        p == decision(x - 1, y as int, r as int),
                ;
                p = p + 2 * (x as i128) + 1;
            } else {
                x = x + 1;
                y = y - 1;
                assert(p + 2 * (x - y) + 1 == decision(x as int, y as int, r as int))
                    by (nonlinear_arith)
                    requires
                        p == decision(x - 1, y + 1, r as int),
                ;
                p = p + 2 * ((x - y) as i128) + 1;
            }
        }
        proof {
            assert(!step_active(r as int, x as nat));
            assert forall|i: int, j: int| 0 <= i < w && 0 <= j < h implies covered_before(
                cx as int,
                cy as int,
                r as int,
                x as nat,
                i,
                j,
            ) == disc_covers(cx as int, cy as int, r as int, i, j) by {
                if covered_before(cx as int, cy as int, r as int, x as nat, i, j) {
                    let m = choose|m: nat| m < x && #[trigger] step_covers(cx as int, cy as int, r as int, m, i, j);
                    assert(step_active(r as int, m));
                }
                if disc_covers(cx as int, cy as int, r as int, i, j) {
                    let m = choose|m: nat| step_active(r as int, m) && #[trigger] step_covers(cx as int, cy as int, r as int, m, i, j);
                    if m >= x {
                        lemma_inactive_after(r as int, x as nat, m);
                    }
                }
            }
        }
    }
}

} // verus!
