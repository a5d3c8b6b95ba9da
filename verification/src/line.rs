use vstd::prelude::*;

use crate::math::{Ivec2, Lvec2, ivec2, lvec2};
use crate::pixel::{is_opaque_black, pixel_rgba};
use vstd::arithmetic::div_mod::*;
use vstd::arithmetic::mul::*;

verus! {

// ---------------------------------------------------------------------------
// Integer helpers with the meaning of Rust's operators on signed integers.
// ---------------------------------------------------------------------------

/// Absolute value.
pub open spec fn iabs(a: int) -> int {
    if a < 0 { -a } else { a }
}

/// Signed division rounding toward zero (Rust's `/` on signed integers).
pub open spec fn trunc_div(a: int, b: int) -> int {
    if a >= 0 { a / b } else { -((-a) / b) }
}

// ---------------------------------------------------------------------------
// The line drawing model.
//
// A line is drawn along its major axis (x, or y for a steep line, whose
// coordinates are swapped), from the end with the smaller major coordinate.
// Both ends are clipped against the canvas, then Bresenham's rule places one
// pixel per major coordinate.
// ---------------------------------------------------------------------------

/// Whether the line is longer vertically than horizontally.
pub open spec fn line_is_steep(v1: Ivec2, v2: Ivec2) -> bool {
    iabs(v2.y - v1.y) > iabs(v2.x - v1.x)
}

/// The end points in (major, minor) coordinates, ordered by major coordinate.
pub open spec fn line_ends(v1: Ivec2, v2: Ivec2) -> ((int, int), (int, int)) {
    let steep = line_is_steep(v1, v2);
    let a = if steep { (v1.y as int, v1.x as int) } else { (v1.x as int, v1.y as int) };
    let b = if steep { (v2.y as int, v2.x as int) } else { (v2.x as int, v2.y as int) };
    if a.0 > b.0 { (b, a) } else { (a, b) }
}

/// Whether a minor coordinate lies off the canvas whose largest minor
/// coordinate is `y_max`: below 0 or beyond `y_max`.
pub open spec fn minor_outside(y: int, y_max: int) -> bool {
    y < 0 || y > y_max
}

/// The canvas edge a minor coordinate off the canvas is moved to: 0 for one
/// below the canvas, `y_max` for one beyond it.
pub open spec fn minor_edge(y: int, y_max: int) -> int {
    if y < 0 { 0 } else { y_max }
}

/// Everything the line drawer decides before it places pixels.
pub struct LinePlan {
    pub steep: bool,
    pub visible: bool,
    /// clipped start (major, minor)
    pub start: (int, int),
    /// clipped end (major, minor)
    pub end: (int, int),
    pub delta_x: int,
    pub delta_y: int,
    pub sign_y: int,
    pub x_max: int,
    pub y_max: int,
}

/// The start after clipping at major coordinate 0 (similar triangles, rounding
/// toward zero).
pub open spec fn major_clip(s: (int, int), e: (int, int)) -> (int, int) {
    if s.0 < 0 {
        (0, trunc_div((e.1 - s.1) * (0 - s.0), e.0 - s.0) + s.1)
    } else {
        s
    }
}

/// The start after moving it onto the canvas edge along the minor axis.
pub open spec fn minor_clip_start(p: (int, int), e: (int, int), y_max: int) -> (int, int) {
    if minor_outside(p.1, y_max) {
        let ny = minor_edge(p.1, y_max);
        (trunc_div((e.0 - p.0) * (ny - p.1), e.1 - p.1) + p.0, ny)
    } else {
        p
    }
}

/// The end after moving it onto the canvas edge along the minor axis.
pub open spec fn minor_clip_end(p: (int, int), e: (int, int), y_max: int) -> (int, int) {
    if minor_outside(e.1, y_max) {
        let ny = minor_edge(e.1, y_max);
        (trunc_div((p.0 - e.0) * (ny - e.1), p.1 - e.1) + e.0, ny)
    } else {
        e
    }
}

/// Whether clipping leaves nothing of the line.
pub open spec fn line_hidden(s: (int, int), e: (int, int), x_max: int, y_max: int) -> bool {
    ||| s.0 >= x_max
    ||| (s.0 < 0 && e.0 < 0)
    ||| (minor_outside(major_clip(s, e).1, y_max) && minor_outside(e.1, y_max))
}

pub open spec fn line_plan(v1: Ivec2, v2: Ivec2, width: int, height: int) -> LinePlan {
    let steep = line_is_steep(v1, v2);
    let (s, e) = line_ends(v1, v2);
    let x_max = if steep { height - 1 } else { width - 1 };
    let y_max = if steep { width - 1 } else { height - 1 };
    let p2 = minor_clip_start(major_clip(s, e), e, y_max);
    LinePlan {
        steep,
        visible: !line_hidden(s, e, x_max, y_max),
        start: p2,
        end: minor_clip_end(p2, e, y_max),
        delta_x: e.0 - s.0,
        delta_y: iabs(e.1 - s.1),
        sign_y: if e.1 - s.1 > 0 { 1 } else { -1 },
        x_max,
        y_max,
    }
}

/// Number of pixels the line puts on the canvas.
pub open spec fn plan_len(plan: LinePlan) -> int {
    if !plan.visible {
        0
    } else {
        let stop = if plan.end.0 < plan.x_max { plan.end.0 } else { plan.x_max };
        if stop > plan.start.0 { stop - plan.start.0 } else { 0 }
    }
}

/// Bresenham's rule: after `k` steps along the major axis the minor coordinate
/// has moved `k * dy / dx` rounded to the nearest integer (halves round up).
pub open spec fn bresenham_offset(k: int, dx: int, dy: int) -> int {
    (2 * k * dy + dx) / (2 * dx)
}

/// The `k`-th pixel of a plan as a canvas (column, row).
pub open spec fn plan_pixel(plan: LinePlan, k: int) -> (int, int) {
    let major = plan.start.0 + k;
    let minor = plan.start.1 + plan.sign_y * bresenham_offset(k, plan.delta_x, plan.delta_y);
    if plan.steep { (minor, major) } else { (major, minor) }
}

/// The pixels (column, row) of the line from `v1` to `v2` on a canvas of the given size,
/// in the order they are drawn.
pub open spec fn line_pixels(v1: Ivec2, v2: Ivec2, width: int, height: int) -> Seq<(int, int)> {
    let plan = line_plan(v1, v2, width, height);
    Seq::new(plan_len(plan) as nat, |k: int| plan_pixel(plan, k))
}

/// Position in the row-major pixel buffer.
pub open spec fn pixel_index(p: (int, int), width: int) -> int {
    p.1 * width + p.0
}

/// Whether some pixel of the sequence sits at buffer position `i`.
pub open spec fn covers(pixels: Seq<(int, int)>, width: int, i: int) -> bool {
    exists|k: int| 0 <= k < pixels.len() && #[trigger] pixel_index(pixels[k], width) == i
}

/// The buffer after setting each pixel of the sequence to `color`.
pub open spec fn painted(canvas: Seq<u32>, pixels: Seq<(int, int)>, width: int, color: u32) -> Seq<u32> {
    Seq::new(canvas.len(), |i: int| if covers(pixels, width, i) { color } else { canvas[i] })
}

} // verus!

verus! {

// ---------------------------------------------------------------------------
// Arithmetic facts.
// ---------------------------------------------------------------------------

proof fn lemma_div_neg_divisor(x: int, d: int)
    requires
        0 <= x,
        0 < d,
    ensures
        x / (-d) == -(x / d),
{
    let q = x / d;
    let r = x % d;
    lemma_fundamental_div_mod(x, d);
    lemma_mod_bound(x, d);
    assert(x / (-d) == -q) by (nonlinear_arith)
        requires
            x == d * q + r,
            0 <= r < d,
            d > 0,
    ;
}

/// Rust's signed division in terms of the magnitudes of its operands.
proof fn lemma_trunc_div(x: int, y: int)
    requires
        y != 0,
    ensures
        trunc_div(x, y) == (if (x < 0) == (y < 0) || x == 0 {
            iabs(x) / iabs(y)
        } else {
            -(iabs(x) / iabs(y))
        }),
        iabs(x) / iabs(y) <= iabs(x),
        0 <= iabs(x) / iabs(y),
{
    if y < 0 {
        lemma_div_neg_divisor(iabs(x), -y);
    }
    lemma_div_is_ordered_by_denominator(iabs(x), 1, iabs(y));
    lemma_div_pos_is_pos(iabs(x), iabs(y));
}

/// Floor of a quotient is at least the quotient's lower bound `x` when `y >= z`.
proof fn lemma_scaled_div_ge(x: int, y: int, z: int)
    requires
        0 <= x,
        1 <= z <= y,
    ensures
        x <= (x * y) / z,
{
    lemma_mul_inequality(z, y, x);
    assert(z * x == x * z) by (nonlinear_arith);
    assert(y * x == x * y) by (nonlinear_arith);
    lemma_div_is_ordered(x * z, x * y, z);
    lemma_div_multiples_vanish(x, z);
    assert(z * x == x * z);
}

// ---------------------------------------------------------------------------
// Bresenham's rule.
// ---------------------------------------------------------------------------

proof fn lemma_offset_bounds(k: int, dx: int, dy: int)
    requires
        dx > 0,
        0 <= dy,
        0 <= k,
    ensures
        2 * dx * bresenham_offset(k, dx, dy) <= 2 * k * dy + dx,
        2 * k * dy + dx < 2 * dx * (bresenham_offset(k, dx, dy) + 1),
        0 <= bresenham_offset(k, dx, dy),
{
    let n = 2 * k * dy + dx;
    assert(n >= 0) by (nonlinear_arith)
        requires
            dx > 0,
            0 <= dy,
            0 <= k,
            n == 2 * k * dy + dx,
    ;
    lemma_fundamental_div_mod(n, 2 * dx);
    lemma_mod_bound(n, 2 * dx);
    lemma_div_pos_is_pos(n, 2 * dx);
    let c = n / (2 * dx);
    assert(2 * dx * (c + 1) == 2 * dx * c + 2 * dx) by (nonlinear_arith);
}

/// The offset grows by one exactly when the error term runs out.
proof fn lemma_offset_step(k: int, dx: int, dy: int)
    requires
        dx > 0,
        0 <= dy <= dx,
        0 <= k,
    ensures
        ({
            let c = bresenham_offset(k, dx, dy);
            let err = dx - 2 * k * dy + 2 * c * dx;
            &&& 0 < err <= 2 * dx
            &&& err - 2 * dy <= 0 ==> bresenham_offset(k + 1, dx, dy) == c + 1
            &&& err - 2 * dy > 0 ==> bresenham_offset(k + 1, dx, dy) == c
            &&& dx - 2 * (k + 1) * dy + 2 * c * dx == err - 2 * dy
            &&& dx - 2 * (k + 1) * dy + 2 * (c + 1) * dx == err - 2 * dy + 2 * dx
        }),
{
    let c = bresenham_offset(k, dx, dy);
    lemma_offset_bounds(k, dx, dy);
    assert(2 * (k + 1) * dy == 2 * k * dy + 2 * dy) by (nonlinear_arith);
    assert(2 * (c + 1) * dx == 2 * c * dx + 2 * dx) by (nonlinear_arith);
    assert(2 * dx * c == 2 * c * dx) by (nonlinear_arith);
    assert(2 * dx * (c + 1) == 2 * c * dx + 2 * dx) by (nonlinear_arith);
    assert(2 * dx * (c + 2) == 2 * c * dx + 4 * dx) by (nonlinear_arith);
    let n1 = 2 * (k + 1) * dy + dx;
    if dx - 2 * k * dy + 2 * c * dx - 2 * dy <= 0 {
        lemma_fundamental_div_mod_converse(n1, 2 * dx, c + 1, n1 - 2 * dx * (c + 1));
    } else {
        lemma_fundamental_div_mod_converse(n1, 2 * dx, c, n1 - 2 * dx * c);
    }
}

/// The minor coordinate does not pass `d` while the line climbs at most `d0`
/// over `k0` steps and the step count stays below `k0 * d / d0`.
proof fn lemma_offset_le(k: int, dx: int, dy: int, k0: int, d0: int, d: int)
    requires
        dx > 0,
        0 <= dy,
        0 <= k,
        0 <= k0,
        0 < d0,
        0 <= d,
        dy * k0 <= dx * d0,
        k * d0 < k0 * d,
    ensures
        bresenham_offset(k, dx, dy) <= d,
{
    assert(k * dy < dx * d) by (nonlinear_arith)
        requires
            dx > 0,
            0 <= dy,
            0 <= k,
            0 <= k0,
            0 < d0,
            0 <= d,
            dy * k0 <= dx * d0,
            k * d0 < k0 * d,
    {
        if dy == 0 {
            assert(k0 * d > 0);
            assert(d > 0);
        } else {
            assert(k * d0 * dy < k0 * d * dy);
            assert(k0 * dy * d <= dx * d0 * d);
            assert(d0 * (k * dy) < d0 * (dx * d));
        }
    }
    lemma_offset_bounds(k, dx, dy);
    let c = bresenham_offset(k, dx, dy);
    assert(c <= d) by (nonlinear_arith)
        requires
            2 * dx * c <= 2 * k * dy + dx,
            k * dy < dx * d,
            dx > 0,
    ;
}

proof fn lemma_offset_flat(k: int, dx: int)
    requires
        dx > 0,
        0 <= k,
    ensures
        bresenham_offset(k, dx, 0) == 0,
{
    assert(2 * k * 0 + dx == dx) by (nonlinear_arith);
    lemma_fundamental_div_mod_converse(dx, 2 * dx, 0, dx);
}

} // verus!

verus! {

// ---------------------------------------------------------------------------
// Clipping geometry.
// ---------------------------------------------------------------------------

pub open spec fn in_i32(a: int) -> bool {
    -0x8000_0000 <= a < 0x8000_0000
}

/// Clipping the start at major coordinate 0 moves it `-s.0` steps along the major
/// axis and `(dy * -s.0) / dx` (rounded toward the start) along the minor axis.
proof fn lemma_major_clip(s: (int, int), e: (int, int))
    requires
        s.0 < 0 <= e.0,
        in_i32(s.0),
        in_i32(s.1),
        in_i32(e.0),
        in_i32(e.1),
    ensures
        ({
            let dx = e.0 - s.0;
            let dy = iabs(e.1 - s.1);
            let sg: int = if e.1 - s.1 > 0 { 1 } else { -1 };
            let t0 = -s.0;
            let a = (dy * t0) / dx;
            &&& -0x7fff_ffff_8000_0000 <= (e.1 - s.1) * (0 - s.0) <= 0x7fff_ffff_8000_0000
            &&& trunc_div((e.1 - s.1) * (0 - s.0), e.0 - s.0) == sg * a
            &&& 0 <= a <= dy
            &&& dx * a <= dy * t0
            &&& in_i32(s.1 + sg * a)
            &&& e.1 - (s.1 + sg * a) == sg * (dy - a)
        }),
{
    let dx = e.0 - s.0;
    let dy = iabs(e.1 - s.1);
    let sg: int = if e.1 - s.1 > 0 { 1 } else { -1 };
    let t0 = -s.0;
    let a = (dy * t0) / dx;
    let num = (e.1 - s.1) * (0 - s.0);
    assert(0 <= dy <= 0xffff_ffff);
    assert(0 < t0 <= 0x8000_0000);
    assert(0 <= dy * t0 <= 0xffff_ffff * 0x8000_0000) by (nonlinear_arith)
        requires
            0 <= dy <= 0xffff_ffff,
            0 < t0 <= 0x8000_0000,
    ;
    assert(iabs(num) == dy * t0) by (nonlinear_arith)
        requires
            num == (e.1 - s.1) * t0,
            dy == iabs(e.1 - s.1),
            t0 > 0,
    ;
    lemma_trunc_div(num, dx);
    assert(num < 0 ==> sg == -1) by (nonlinear_arith)
        requires
            num == (e.1 - s.1) * t0,
            t0 > 0,
            sg == (if e.1 - s.1 > 0 { 1int } else { -1int }),
    ;
    assert(num > 0 ==> sg == 1) by (nonlinear_arith)
        requires
            num == (e.1 - s.1) * t0,
            t0 > 0,
            sg == (if e.1 - s.1 > 0 { 1int } else { -1int }),
    ;
    lemma_div_pos_is_pos(dy * t0, dx);
    lemma_mul_inequality(t0, dx, dy);
    assert(t0 * dy == dy * t0 && dx * dy == dy * dx) by (nonlinear_arith);
    lemma_div_is_ordered(dy * t0, dy * dx, dx);
    lemma_div_multiples_vanish(dy, dx);
    assert(dx * dy == dy * dx);
    lemma_fundamental_div_mod(dy * t0, dx);
    lemma_mod_bound(dy * t0, dx);
    if sg == 1 {
        assert(sg * a == a);
        assert(sg * (dy - a) == dy - a);
    } else {
        assert(sg * a == -a);
        assert(sg * (dy - a) == a - dy);
    }
}

/// Facts about a line plan: the pixels stay inside
/// the canvas, and the quantities the drawer computes fit its integers.
proof fn lemma_plan_facts(v1: Ivec2, v2: Ivec2, width: int, height: int)
    requires
        0 <= width,
        0 <= height,
    ensures
        ({
            let plan = line_plan(v1, v2, width, height);
            &&& 0 <= plan.delta_y <= plan.delta_x
            &&& plan_len(plan) > 0 ==> plan.delta_x > 0
            &&& plan_len(plan) > 0 ==> 0 <= plan.start.0
            &&& forall|k: int|
                0 <= k < plan_len(plan) ==> {
                    &&& plan.start.0 + k < plan.x_max
                    &&& 0 <= #[trigger] (plan.start.1 + plan.sign_y * bresenham_offset(
                        k,
                        plan.delta_x,
                        plan.delta_y,
                    )) <= plan.y_max
                }
        }),
{
    let plan = line_plan(v1, v2, width, height);
    let (s, e) = line_ends(v1, v2);
    let dx = e.0 - s.0;
    let dy = iabs(e.1 - s.1);
    let sg: int = if e.1 - s.1 > 0 { 1 } else { -1 };
    let x_max = plan.x_max;
    let y_max = plan.y_max;
    assert(in_i32(s.0) && in_i32(s.1) && in_i32(e.0) && in_i32(e.1));
    assert(0 <= dy <= dx);
    assert(e.1 - s.1 == sg * dy);
    assert(-1 <= y_max);
    if !plan.visible {
        return;
    }
    assert(e.0 >= 0);
    let t0: int = if s.0 < 0 { -s.0 } else { 0 };
    let a: int = if s.0 < 0 { (dy * t0) / dx } else { 0 };
    if s.0 < 0 {
        lemma_major_clip(s, e);
    }
    let p1 = major_clip(s, e);
    if s.0 < 0 {
        assert(p1.1 == trunc_div((e.1 - s.1) * (0 - s.0), e.0 - s.0) + s.1);
        assert(e.1 - p1.1 == sg * (dy - a));
    } else {
        assert(sg * a == 0);
        assert(e.1 - p1.1 == sg * dy);
    }
    assert(p1 == (s.0 + t0, s.1 + sg * a));
    assert(0 <= a <= dy && dx * a <= dy * t0);
    let k0 = e.0 - p1.0;
    let d0 = dy - a;
    assert(k0 == dx - t0 && 0 <= k0);
    assert(0 <= p1.0);
    assert(e.1 - p1.1 == sg * d0);
    assert(in_i32(p1.1));
    assert(dy * k0 <= dx * d0) by (nonlinear_arith)
        requires
            k0 == dx - t0,
            d0 == dy - a,
            dx * a <= dy * t0,
    ;
    let start_out = minor_outside(p1.1, y_max);
    let end_out = minor_outside(e.1, y_max);
    let len = plan_len(plan);
    if !start_out && !end_out {
        assert(plan.start == p1 && plan.end == e);
        assert forall|k: int| 0 <= k < len implies {
            &&& plan.start.0 + k < plan.x_max
            &&& 0 <= #[trigger] (plan.start.1 + plan.sign_y * bresenham_offset(
                k,
                plan.delta_x,
                plan.delta_y,
            )) <= plan.y_max
        } by {
            assert(k < k0);
            lemma_offset_bounds(k, dx, dy);
            let off = bresenham_offset(k, dx, dy);
            if d0 > 0 {
                assert(k * d0 < k0 * d0) by (nonlinear_arith)
                    requires
                        0 <= k < k0,
                        d0 > 0,
                ;
                lemma_offset_le(k, dx, dy, k0, d0, d0);
            } else {
                assert(dy == 0) by (nonlinear_arith)
                    requires
                        dy * k0 <= dx * d0,
                        d0 == 0,
                        k0 > 0,
                        dy >= 0,
                ;
                lemma_offset_flat(k, dx);
            }
            assert(0 <= off <= d0);
            if sg == 1 {
                assert(sg * off == off);
            } else {
                assert(sg * off == -off);
            }
        }
    } else if start_out && !end_out {
        assert(y_max >= 0);
        let b = minor_edge(p1.1, y_max);
        if p1.1 < 0 {
            assert(b == 0);
            assert(sg == 1) by (nonlinear_arith)
                requires
                    e.1 - p1.1 == sg * d0,
                    e.1 - p1.1 > 0,
                    d0 >= 0,
                    sg == 1 || sg == -1,
            ;
        } else {
            assert(b == y_max);
            assert(sg == -1) by (nonlinear_arith)
                requires
                    e.1 - p1.1 == sg * d0,
                    e.1 - p1.1 < 0,
                    d0 >= 0,
                    sg == 1 || sg == -1,
            ;
        }
        assert(d0 > 0);
        let db = iabs(b - p1.1);
        assert(b - p1.1 == sg * db);
        assert(0 < db <= d0);
        let num = (e.0 - p1.0) * (b - p1.1);
        assert(num == sg * (k0 * db)) by (nonlinear_arith)
            requires
                num == k0 * (b - p1.1),
                b - p1.1 == sg * db,
                sg == 1 || sg == -1,
        ;
        assert(k0 * db >= 0) by (nonlinear_arith)
            requires
                k0 >= 0,
                db >= 0,
        ;
        let qd = (k0 * db) / d0;
        lemma_trunc_div(num, e.1 - p1.1);
        assert(trunc_div(num, e.1 - p1.1) == qd);
        lemma_fundamental_div_mod(k0 * db, d0);
        lemma_mod_bound(k0 * db, d0);
        lemma_div_pos_is_pos(k0 * db, d0);
        assert(plan.start == (p1.0 + qd, b));
        assert(plan.end == e);
        assert forall|k: int| 0 <= k < len implies {
            &&& plan.start.0 + k < plan.x_max
            &&& 0 <= #[trigger] (plan.start.1 + plan.sign_y * bresenham_offset(
                k,
                plan.delta_x,
                plan.delta_y,
            )) <= plan.y_max
        } by {
            assert(k < k0 - qd);
            assert(k * d0 < k0 * (d0 - db)) by (nonlinear_arith)
                requires
                    0 <= k < k0 - qd,
                    d0 > 0,
                    k0 * db < d0 * qd + d0,
            ;
            lemma_offset_bounds(k, dx, dy);
            lemma_offset_le(k, dx, dy, k0, d0, d0 - db);
            let off = bresenham_offset(k, dx, dy);
            assert(0 <= off <= d0 - db);
            if sg == 1 {
                assert(sg * off == off);
            } else {
                assert(sg * off == -off);
            }
        }
    } else if !start_out && end_out {
        assert(y_max >= 0);
        let b = minor_edge(e.1, y_max);
        assert(plan.start == p1);
        if e.1 < 0 {
            assert(b == 0);
            assert(sg == -1) by (nonlinear_arith)
                requires
                    e.1 - p1.1 == sg * d0,
                    e.1 - p1.1 < 0,
                    d0 >= 0,
                    sg == 1 || sg == -1,
            ;
        } else {
            assert(b == y_max);
            assert(sg == 1) by (nonlinear_arith)
                requires
                    e.1 - p1.1 == sg * d0,
                    e.1 - p1.1 > 0,
                    d0 >= 0,
                    sg == 1 || sg == -1,
            ;
        }
        assert(d0 > 0);
        let eb = iabs(e.1 - b);
        let db = d0 - eb;
        assert(e.1 - b == sg * eb);
        assert(0 < eb <= d0);
        let num = (p1.0 - e.0) * (b - e.1);
        assert(num == sg * (k0 * eb)) by (nonlinear_arith)
            requires
                num == (p1.0 - e.0) * (b - e.1),
                p1.0 - e.0 == -k0,
                e.1 - b == sg * eb,
                sg == 1 || sg == -1,
        ;
        assert(k0 * eb >= 0) by (nonlinear_arith)
            requires
                k0 >= 0,
                eb >= 0,
        ;
        let qe = (k0 * eb) / d0;
        assert(p1.1 - e.1 == -sg * d0);
        lemma_trunc_div(num, p1.1 - e.1);
        assert(trunc_div(num, p1.1 - e.1) == -qe);
        lemma_fundamental_div_mod(k0 * eb, d0);
        lemma_mod_bound(k0 * eb, d0);
        lemma_div_pos_is_pos(k0 * eb, d0);
        assert(plan.end == (e.0 - qe, b));
        assert forall|k: int| 0 <= k < len implies {
            &&& plan.start.0 + k < plan.x_max
            &&& 0 <= #[trigger] (plan.start.1 + plan.sign_y * bresenham_offset(
                k,
                plan.delta_x,
                plan.delta_y,
            )) <= plan.y_max
        } by {
            assert(k < k0 - qe);
            assert(k * d0 < k0 * db) by (nonlinear_arith)
                requires
                    0 <= k < k0 - qe,
                    d0 > 0,
                    k0 * eb < d0 * qe + d0,
                    db == d0 - eb,
            ;
            lemma_offset_bounds(k, dx, dy);
            lemma_offset_le(k, dx, dy, k0, d0, db);
            let off = bresenham_offset(k, dx, dy);
            assert(0 <= off <= db);
            if sg == 1 {
                assert(sg * off == off);
            } else {
                assert(sg * off == -off);
            }
        }
    }
}

} // verus!

verus! {

/// A product of a 31-bit and a 32-bit magnitude, and its quotient by any non-zero
/// divisor, stay clear of the 64-bit limits even after adding a 31-bit term.
proof fn lemma_clip_product(a: int, b: int, d: int)
    requires
        iabs(a) < 0x8000_0000,
        iabs(b) < 0x1_0000_0000,
        d != 0,
    ensures
        iabs(a * b) <= 0x7fff_fffe_8000_0001,
        iabs(trunc_div(a * b, d)) <= 0x7fff_fffe_8000_0001,
{
    assert(iabs(a * b) == iabs(a) * iabs(b)) by (nonlinear_arith);
    assert(iabs(a) * iabs(b) <= 0x7fff_ffff * 0xffff_ffff) by (nonlinear_arith)
        requires
            0 <= iabs(a) <= 0x7fff_ffff,
            0 <= iabs(b) <= 0xffff_ffff,
    ;
    lemma_trunc_div(a * b, d);
}

pub open spec fn in_i64(a: int) -> bool {
    i64::MIN <= a <= i64::MAX
}

/// Moving an end point onto a canvas edge (`base + a * b / d`) stays within 64 bits.
pub open spec fn clip_fits_i64(a: int, b: int, d: int, base: int) -> bool {
    &&& in_i64(a)
    &&& in_i64(b)
    &&& in_i64(d)
    &&& in_i64(a * b)
    &&& in_i64(trunc_div(a * b, d))
    &&& in_i64(trunc_div(a * b, d) + base)
}

/// Every intermediate value of the 64-bit line drawer fits in 64 bits for this
/// line and canvas (only moving an end point onto a canvas edge can overflow).
pub open spec fn line_fits_i64(v1: Ivec2, v2: Ivec2, width: int, height: int) -> bool {
    let steep = line_is_steep(v1, v2);
    let (s, e) = line_ends(v1, v2);
    let x_max = if steep { height - 1 } else { width - 1 };
    let y_max = if steep { width - 1 } else { height - 1 };
    let p1 = major_clip(s, e);
    let start_out = minor_outside(p1.1, y_max);
    let end_out = minor_outside(e.1, y_max);
    let reach_minor = s.0 < x_max && !(s.0 < 0 && e.0 < 0);
    &&& (reach_minor && start_out && !end_out) ==> clip_fits_i64(
        e.0 - p1.0,
        minor_edge(p1.1, y_max) - p1.1,
        e.1 - p1.1,
        p1.0,
    )
    &&& (reach_minor && !start_out && end_out) ==> clip_fits_i64(
        p1.0 - e.0,
        minor_edge(e.1, y_max) - e.1,
        p1.1 - e.1,
        e.0,
    )
}

/// On a canvas whose sides are below 2^31 pixels no value of the 64-bit line
/// drawer overflows.
pub proof fn lemma_line_fits_i64(v1: Ivec2, v2: Ivec2, width: int, height: int)
    requires
        0 <= width <= i32::MAX,
        0 <= height <= i32::MAX,
    ensures
        line_fits_i64(v1, v2, width, height),
{
    let steep = line_is_steep(v1, v2);
    let (s, e) = line_ends(v1, v2);
    let x_max = if steep { height - 1 } else { width - 1 };
    let y_max = if steep { width - 1 } else { height - 1 };
    let p1 = major_clip(s, e);
    let reach_minor = s.0 < x_max && !(s.0 < 0 && e.0 < 0);
    if reach_minor {
        if s.0 < 0 {
            lemma_major_clip(s, e);
        }
        assert(0 <= p1.0 <= e.0 && in_i32(p1.1));
        let start_out = minor_outside(p1.1, y_max);
        let end_out = minor_outside(e.1, y_max);
        if start_out && !end_out {
            lemma_clip_product(e.0 - p1.0, minor_edge(p1.1, y_max) - p1.1, e.1 - p1.1);
        }
        if !start_out && end_out {
            lemma_clip_product(p1.0 - e.0, minor_edge(e.1, y_max) - e.1, p1.1 - e.1);
        }
    }
}

fn abs_i64(a: i64) -> (r: i64)
    requires
        a > i64::MIN,
    ensures
        r == iabs(a as int),
{
    if a < 0 { -a } else { a }
}

/// The outcome of clipping a line: the end points along (major, minor) axes
/// and the stepping quantities of Bresenham's rule.
struct ClippedLine {
    steep: bool,
    start: Lvec2,
    end: Lvec2,
    delta_x: i64,
    delta_y: i64,
    sign_y: i64,
    x_max: i64,
}

/// The end points in (major, minor) coordinates ordered by major coordinate, and
/// whether the line is steep.
fn oriented_ends(v1: Ivec2, v2: Ivec2) -> (r: (bool, Lvec2, Lvec2))
    ensures
        r.0 == line_is_steep(v1, v2),
        line_ends(v1, v2) == ((r.1.x as int, r.1.y as int), (r.2.x as int, r.2.y as int)),
{
    // use 64 bit ints to avoid overflow
    let mut v1 = lvec2(v1.x as i64, v1.y as i64);
    let mut v2 = lvec2(v2.x as i64, v2.y as i64);

    // whether line is longer vertically than horizontally
    let is_steep = abs_i64(v2.y - v1.y) > abs_i64(v2.x - v1.x);

    // if line is steep, swap x for y and iterate on rows instead of columns
    if is_steep {
        let t = v1.x;
        v1.x = v1.y;
        v1.y = t;
        let t = v2.x;
        v2.x = v2.y;
        v2.y = t;
    }

    // set 'start' to be the point with the lowest x-coordinate
    let (start, end) = if v1.x > v2.x { (v2, v1) } else { (v1, v2) };
    (is_steep, start, end)
}

/// Moves the start onto major coordinate 0, using similar triangles to find where
/// the line crosses the canvas edge (without floating point arithmetic).
fn clip_major(start: Lvec2, end: Lvec2) -> (r: Lvec2)
    requires
        start.x < 0 <= end.x,
        in_i32(start.x as int),
        in_i32(start.y as int),
        in_i32(end.x as int),
        in_i32(end.y as int),
    ensures
        (r.x as int, r.y as int) == major_clip(
            (start.x as int, start.y as int),
            (end.x as int, end.y as int),
        ),
        in_i32(r.y as int),
{
    let ghost s = (start.x as int, start.y as int);
    let ghost e = (end.x as int, end.y as int);
    proof {
        lemma_major_clip(s, e);
        lemma_trunc_div((e.1 - s.1) * (0 - s.0), e.0 - s.0);
    }
    let new_x: i64 = 0;
    let new_y = (end.y - start.y) * (0 - start.x) / (end.x - start.x) + start.y;
    lvec2(new_x, new_y)
}

/// Moves the end point `from` along the line toward `to` until its minor
/// coordinate is `new_y` (similar triangles, rounding toward zero).
fn clip_toward_i64(from: Lvec2, to: Lvec2, new_y: i64) -> (r: Lvec2)
    requires
        to.y != from.y,
        clip_fits_i64(to.x - from.x, new_y - from.y, to.y - from.y, from.x as int),
    ensures
        r.y == new_y,
        r.x == trunc_div((to.x - from.x) * (new_y - from.y), to.y - from.y) + from.x,
{
    let num = (to.x - from.x) * (new_y - from.y);
    let den = to.y - from.y;
    proof {
        if num == i64::MIN && den == -1 {
            lemma_div_neg_divisor(0x8000_0000_0000_0000, 1);
            assert(trunc_div(num as int, den as int) == 0x8000_0000_0000_0000);
        }
    }
    let new_x = num / den + from.x;
    lvec2(new_x, new_y)
}

/// Clips the line from `v1` to `v2` against the canvas; `None` when nothing of it
/// is drawn.
fn clip_line(v1: Ivec2, v2: Ivec2, canvas_width: usize, canvas_height: usize) -> (r: Option<
    ClippedLine,
>)
    requires
        canvas_width <= i64::MAX,
        canvas_height <= i64::MAX,
        line_fits_i64(v1, v2, canvas_width as int, canvas_height as int),
    ensures
        ({
            let plan = line_plan(v1, v2, canvas_width as int, canvas_height as int);
            match r {
                None => !plan.visible,
                Some(c) => {
                    &&& plan.visible
                    &&& c.steep == plan.steep
                    &&& plan.start == (c.start.x as int, c.start.y as int)
                    &&& plan.end == (c.end.x as int, c.end.y as int)
                    &&& c.delta_x == plan.delta_x
                    &&& c.delta_y == plan.delta_y
                    &&& c.sign_y == plan.sign_y
                    &&& c.x_max == plan.x_max
                }
            }
        }),
{
    let ghost (s, e) = line_ends(v1, v2);
    let (is_steep, mut start, mut end) = oriented_ends(v1, v2);

    let delta_x = end.x - start.x;
    let delta_y = abs_i64(end.y - start.y);
    let sign_delta_y: i64 = if end.y - start.y > 0 { 1 } else { -1 };

    let (x_max, y_max) = if is_steep {
        (canvas_height as i64 - 1, canvas_width as i64 - 1)
    } else {
        (canvas_width as i64 - 1, canvas_height as i64 - 1)
    };

    // perform clipping
    if start.x >= x_max {
        // both points are outside of canvas
        return None;
    }
    if start.x < 0 {
        if end.x < 0 {
            // outside of canvas
            return None;
        }
        start = clip_major(start, end);
    }
    let ghost p1 = (start.x as int, start.y as int);
    assert(p1 == major_clip(s, e));

    let ghost start_out = minor_outside(p1.1, y_max as int);
    let ghost end_out = minor_outside(e.1, y_max as int);

    // if 'start.y' is greater than y_max or less than
    // zero, adjust 'start' to fit inside canvas
    if start.y < 0 || start.y > y_max {
        if end.y < 0 || end.y > y_max {
            // both are outside of canvas
            return None;
        }
        let new_y = if start.y < 0 { 0 } else { y_max };
        start = clip_toward_i64(start, end, new_y);
    }
    assert((start.x as int, start.y as int) == minor_clip_start(p1, e, y_max as int));

    // if 'end.y' is greater than y_max or less than
    // zero, adjust 'end' to fit inside canvas
    if end.y < 0 || end.y > y_max {
        assert(end_out && !start_out);
        let new_y = if end.y < 0 { 0 } else { y_max };
        end = clip_toward_i64(end, start, new_y);
    }
    Some(
        ClippedLine {
            steep: is_steep,
            start,
            end,
            delta_x,
            delta_y,
            sign_y: sign_delta_y,
            x_max,
        },
    )
}

} // verus!

verus! {

proof fn lemma_paint_step(canvas: Seq<u32>, pixels: Seq<(int, int)>, w: int, color: u32, k: int)
    requires
        0 <= k < pixels.len(),
    ensures
        0 <= pixel_index(pixels[k], w) < canvas.len() ==> painted(canvas, pixels.take(k), w, color).update(
            pixel_index(pixels[k], w),
            color,
        ) =~= painted(canvas, pixels.take(k + 1), w, color),
{
    let idx = pixel_index(pixels[k], w);
    let before = pixels.take(k);
    let after = pixels.take(k + 1);
    if 0 <= idx < canvas.len() {
        assert forall|i: int| 0 <= i < canvas.len() implies covers(after, w, i) == (covers(before, w, i)
            || i == idx) by {
            if covers(before, w, i) {
                let j = choose|j: int| 0 <= j < before.len() && #[trigger] pixel_index(before[j], w) == i;
                assert(after[j] == before[j]);
            }
            if i == idx {
                assert(after[k] == pixels[k]);
            }
            if covers(after, w, i) {
                let j = choose|j: int| 0 <= j < after.len() && #[trigger] pixel_index(after[j], w) == i;
                if j < k {
                    assert(before[j] == after[j]);
                }
            }
        }
    }
}

/// Draws the line from `v1` to `v2` in `color` on a row-major canvas of
/// `canvas_width` by `canvas_height` pixels, clipped to the canvas, computing
/// with 64-bit integers so that no coordinate can overflow. The canvas sides must
/// be even. Row and column 0 belong to the canvas: only an end point beyond the
/// last row or column, or below 0, is moved onto the canvas edge.
pub fn draw_colored_line_clipped_i64(
    v1: Ivec2,
    v2: Ivec2,
    canvas: &mut [u32],
    canvas_width: usize,
    canvas_height: usize,
    color: u32,
)
    requires
        canvas_width % 2 == 0,
        canvas_height % 2 == 0,
        canvas_width <= i64::MAX,
        canvas_height <= i64::MAX,
        line_fits_i64(v1, v2, canvas_width as int, canvas_height as int),
        forall|k: int|
            0 <= k < line_pixels(v1, v2, canvas_width as int, canvas_height as int).len()
                ==> #[trigger] pixel_index(
                line_pixels(v1, v2, canvas_width as int, canvas_height as int)[k],
                canvas_width as int,
            ) < old(canvas)@.len(),
    ensures
        final(canvas)@ == painted(
            old(canvas)@,
            line_pixels(v1, v2, canvas_width as int, canvas_height as int),
            canvas_width as int,
            color,
        ),
{
    let ghost w = canvas_width as int;
    let ghost h = canvas_height as int;
    let ghost plan = line_plan(v1, v2, w, h);
    let ghost pixels = line_pixels(v1, v2, w, h);
    let ghost old_canvas = canvas@;
    proof {
        lemma_plan_facts(v1, v2, w, h);
    }
    let c = match clip_line(v1, v2, canvas_width, canvas_height) {
        None => {
            assert(painted(old_canvas, pixels, w, color) =~= old_canvas);
            return ;
        },
        Some(c) => c,
    };

    // 'err_bound' represents the distance from the current pixel center
    // to the line directly below/above, multiplied by (-2) * delta_x. when
    // this is smaller than 0, y is incremented/decremented
    let mut err_bound = c.delta_x;
    let mut y = c.start.y;
    let stop = if c.end.x < c.x_max { c.end.x } else { c.x_max };
    let mut x = c.start.x;
    let ghost n = plan_len(plan);
    assert(pixels.len() == n);
    proof {
        if n > 0 {
            lemma_offset_bounds(0, c.delta_x as int, c.delta_y as int);
            assert(2 * 0 * c.delta_y == 0) by (nonlinear_arith);
            lemma_fundamental_div_mod_converse(c.delta_x as int, 2 * c.delta_x, 0, c.delta_x as int);
            assert(bresenham_offset(x - c.start.x, c.delta_x as int, c.delta_y as int) == 0);
            assert(2 * (x - c.start.x) * c.delta_y == 0) by (nonlinear_arith)
                requires
                    x - c.start.x == 0,
            ;
        }
    }
    assert(painted(old_canvas, pixels.take(0), w, color) =~= old_canvas);
    let canvas_len = canvas.len();
    while x < stop
        invariant
            plan == line_plan(v1, v2, w, h),
            pixels == line_pixels(v1, v2, w, h),
            w == canvas_width,
            h == canvas_height,
            plan.x_max == (if plan.steep { h - 1 } else { w - 1 }),
            plan.y_max == (if plan.steep { w - 1 } else { h - 1 }),
            plan.visible,
            c.steep == plan.steep,
            plan.start == (c.start.x as int, c.start.y as int),
            c.delta_x == plan.delta_x,
            c.delta_y == plan.delta_y,
            c.sign_y == plan.sign_y,
            n == plan_len(plan),
            n == pixels.len(),
            n == (if stop > c.start.x { stop - c.start.x } else { 0 }),
            c.start.x <= x,
            x - c.start.x <= n,
            n > 0 ==> c.delta_x > 0,
            n > 0 ==> (y == c.start.y + c.sign_y * bresenham_offset(
                x - c.start.x,
                c.delta_x as int,
                c.delta_y as int,
            )),
            n > 0 ==> err_bound == c.delta_x - 2 * (x - c.start.x) * c.delta_y + 2 * bresenham_offset(
                x - c.start.x,
                c.delta_x as int,
                c.delta_y as int,
            ) * c.delta_x,
            0 <= c.delta_y <= c.delta_x,
            canvas@.len() == old_canvas.len(),
            canvas_len == old_canvas.len(),
            canvas@ == painted(old_canvas, pixels.take(x - c.start.x), w, color),
            forall|k: int| 0 <= k < n ==> #[trigger] pixel_index(pixels[k], w) < old_canvas.len(),
            forall|k: int|
                0 <= k < plan_len(plan) ==> {
                    &&& plan.start.0 + k < plan.x_max
                    &&& 0 <= #[trigger] (plan.start.1 + plan.sign_y * bresenham_offset(
                        k,
                        plan.delta_x,
                        plan.delta_y,
                    )) <= plan.y_max
                },
            plan_len(plan) > 0 ==> 0 <= plan.start.0,
            plan.x_max < i64::MAX,
            plan.y_max < i64::MAX,
        decreases stop - x,
    {
        let ghost k = x - c.start.x;
        let ghost off = bresenham_offset(k, c.delta_x as int, c.delta_y as int);
        proof {
            lemma_offset_step(k, c.delta_x as int, c.delta_y as int);
            assert(0 <= plan.start.1 + plan.sign_y * off <= plan.y_max);
            assert(pixels[k] == plan_pixel(plan, k));
        }
        // account for the fact that we may have swapped our x and y-values
        if c.steep {
            assert(pixel_index(pixels[k], w) == x * w + y);
            canvas[x as usize * canvas_width + y as usize] = color;
        } else {
            assert(pixel_index(pixels[k], w) == y * w + x);
            canvas[y as usize * canvas_width + x as usize] = color;
        }
        proof {
            lemma_paint_step(old_canvas, pixels, w, color, k);
        }
        err_bound -= 2 * c.delta_y;
        // err_bound being <= 0 is equivalent to the distance from
        // the line to the current pixel center being >= 0.5
        if err_bound <= 0 {
            // increment or decrement y by 1 depending on
            // whether we're moving downwards or upwards
            y += c.sign_y;
            // readjust err_bound so it represents distance from
            // line to next pixel (multiplied by (-2) * delta_x)
            err_bound += 2 * c.delta_x;
        }
        x += 1;
    }
    assert(x - c.start.x == n || n == 0);
    assert(pixels.take(n) =~= pixels);
}

} // verus!

verus! {

// ---------------------------------------------------------------------------
// Properties of drawn lines.
// ---------------------------------------------------------------------------

/// Every pixel of a clipped line lies on the canvas.
pub proof fn lemma_line_in_canvas(v1: Ivec2, v2: Ivec2, width: int, height: int)
    requires
        0 <= width,
        0 <= height,
    ensures
        forall|k: int|
            0 <= k < line_pixels(v1, v2, width, height).len() ==> {
                let p = #[trigger] line_pixels(v1, v2, width, height)[k];
                0 <= p.0 < width && 0 <= p.1 < height
            },
{
    lemma_plan_facts(v1, v2, width, height);
    let plan = line_plan(v1, v2, width, height);
    assert forall|k: int| 0 <= k < line_pixels(v1, v2, width, height).len() implies {
        let p = #[trigger] line_pixels(v1, v2, width, height)[k];
        0 <= p.0 < width && 0 <= p.1 < height
    } by {
        assert(line_pixels(v1, v2, width, height)[k] == plan_pixel(plan, k));
        assert(0 <= plan.start.1 + plan.sign_y * bresenham_offset(k, plan.delta_x, plan.delta_y));
    }
}

/// On a buffer of at least `width * height` pixels every pixel of a clipped line
/// has its place in the buffer.
pub proof fn lemma_line_fits_buffer(v1: Ivec2, v2: Ivec2, width: int, height: int, len: int)
    requires
        0 <= width,
        0 <= height,
        width * height <= len,
    ensures
        forall|k: int|
            0 <= k < line_pixels(v1, v2, width, height).len() ==> 0 <= #[trigger] pixel_index(
                line_pixels(v1, v2, width, height)[k],
                width,
            ) < len,
{
    lemma_line_in_canvas(v1, v2, width, height);
    assert forall|k: int| 0 <= k < line_pixels(v1, v2, width, height).len() implies 0
        <= #[trigger] pixel_index(line_pixels(v1, v2, width, height)[k], width) < len by {
        let p = line_pixels(v1, v2, width, height)[k];
        assert(0 <= p.0 < width && 0 <= p.1 < height);
        assert(0 <= p.1 * width + p.0 < width * height) by (nonlinear_arith)
            requires
                0 <= p.0 < width,
                0 <= p.1 < height,
        ;
    }
}

/// A line drawn from `v2` to `v1` covers the same pixels, in the same order, as
/// one drawn from `v1` to `v2`.
pub proof fn lemma_line_symmetric(v1: Ivec2, v2: Ivec2, width: int, height: int)
    requires
        0 <= width,
        0 <= height,
    ensures
        line_pixels(v1, v2, width, height) == line_pixels(v2, v1, width, height),
{
    assert(line_is_steep(v1, v2) == line_is_steep(v2, v1));
    let (s, e) = line_ends(v1, v2);
    if s.0 == e.0 {
        lemma_plan_facts(v1, v2, width, height);
        lemma_plan_facts(v2, v1, width, height);
        assert(line_pixels(v1, v2, width, height) =~= line_pixels(v2, v1, width, height));
    } else {
        assert(line_ends(v1, v2) == line_ends(v2, v1));
        assert(line_plan(v1, v2, width, height) == line_plan(v2, v1, width, height));
    }
}

/// Drawing a line in a given colour leaves the same canvas whichever of its end
/// points it is drawn from.
pub proof fn lemma_drawn_canvas_symmetric(
    canvas: Seq<u32>,
    v1: Ivec2,
    v2: Ivec2,
    width: int,
    height: int,
    color: u32,
)
    requires
        0 <= width,
        0 <= height,
    ensures
        painted(canvas, line_pixels(v1, v2, width, height), width, color) == painted(
            canvas,
            line_pixels(v2, v1, width, height),
            width,
            color,
        ),
{
    lemma_line_symmetric(v1, v2, width, height);
}

/// `d * m / den` stays below `d` when `m` is below `den`.
proof fn lemma_scaled_fraction(d: int, m: int, den: int)
    requires
        d > 0,
        0 <= m < den,
    ensures
        0 <= (d * m) / den < d,
{
    let x = d * m;
    assert(0 <= x < d * den) by (nonlinear_arith)
        requires
            d > 0,
            0 <= m < den,
            x == d * m,
    ;
    lemma_fundamental_div_mod(x, den);
    lemma_mod_bound(x, den);
    lemma_div_pos_is_pos(x, den);
    let q = x / den;
    assert(q < d) by (nonlinear_arith)
        requires
            x == den * q + x % den,
            0 <= x % den,
            x < d * den,
            den > 0,
    ;
}

/// A line drawn from a point of the canvas that is off the canvas's edges along
/// the minor axis (the axis the line moves least along), toward an end point with
/// a larger major coordinate, starts with that point's own pixel, wherever the
/// other end lies: a line leaving the canvas is cut at the canvas edge, not
/// dropped.
pub proof fn lemma_line_starts_at_its_start(v1: Ivec2, v2: Ivec2, width: int, height: int)
    requires
        0 <= v1.x < width - 1,
        0 <= v1.y < height - 1,
        if iabs(v2.y - v1.y) > iabs(v2.x - v1.x) {
            0 < v1.x && v1.y < v2.y
        } else {
            0 < v1.y && v1.x < v2.x
        },
    ensures
        line_pixels(v1, v2, width, height).len() > 0,
        line_pixels(v1, v2, width, height)[0] == (v1.x as int, v1.y as int),
{
    let plan = line_plan(v1, v2, width, height);
    let steep = line_is_steep(v1, v2);
    let (s, e) = line_ends(v1, v2);
    let x_max = plan.x_max;
    let y_max = plan.y_max;
    assert(s == (if steep { (v1.y as int, v1.x as int) } else { (v1.x as int, v1.y as int) }));
    assert(e == (if steep { (v2.y as int, v2.x as int) } else { (v2.x as int, v2.y as int) }));
    assert(0 <= s.0 < x_max && 0 < s.1 < y_max && s.0 < e.0);
    assert(major_clip(s, e) == s);
    assert(plan.visible);
    assert(plan.start == s);
    let d = e.0 - s.0;
    if minor_outside(e.1, y_max) {
        let ny = minor_edge(e.1, y_max);
        let num = (s.0 - e.0) * (ny - e.1);
        let den = s.1 - e.1;
        lemma_trunc_div(num, den);
        if e.1 < 0 {
            assert(num == -(d * (-e.1))) by (nonlinear_arith)
                requires
                    num == (s.0 - e.0) * (ny - e.1),
                    d == e.0 - s.0,
                    ny == 0,
            ;
            lemma_scaled_fraction(d, -e.1, den);
            assert(d * (-e.1) >= 0) by (nonlinear_arith)
                requires
                    d > 0,
                    e.1 < 0,
            ;
        } else {
            assert(num == d * (e.1 - ny)) by (nonlinear_arith)
                requires
                    num == (s.0 - e.0) * (ny - e.1),
                    d == e.0 - s.0,
            ;
            lemma_scaled_fraction(d, e.1 - ny, e.1 - s.1);
            assert(d * (e.1 - ny) >= 0) by (nonlinear_arith)
                requires
                    d > 0,
                    e.1 - ny >= 0,
            ;
        }
        assert(plan.end.0 >= s.0 + 1);
    }
    assert(plan.end.0 > s.0);
    assert(plan_len(plan) > 0);
    lemma_fundamental_div_mod_converse(d, 2 * d, 0, d);
    assert(2 * 0 * plan.delta_y == 0) by (nonlinear_arith);
    assert(bresenham_offset(0, plan.delta_x, plan.delta_y) == 0);
    assert(line_pixels(v1, v2, width, height)[0] == plan_pixel(plan, 0));
}

/// The number of steps along the axis a line moves most along.
pub open spec fn major_length(v1: Ivec2, v2: Ivec2) -> int {
    let dx = iabs(v2.x - v1.x);
    let dy = iabs(v2.y - v1.y);
    if dy > dx { dy } else { dx }
}

/// Pixel `p` lies within half a pixel of the true line through `v1` and `v2`,
/// measured along the axis the line moves least along.
pub open spec fn near_true_line(v1: Ivec2, v2: Ivec2, p: (int, int)) -> bool {
    2 * iabs((p.1 - v1.y) * (v2.x - v1.x) - (p.0 - v1.x) * (v2.y - v1.y)) <= major_length(v1, v2)
}

/// A line whose two ends lie on the canvas is drawn whole: one pixel for each
/// step along its major axis, from the end nearer the origin up to (not
/// including) the other end, and every pixel within half a pixel of the true
/// line through the two ends.
pub proof fn lemma_line_on_canvas(v1: Ivec2, v2: Ivec2, width: int, height: int)
    requires
        0 <= v1.x < width,
        0 <= v1.y < height,
        0 <= v2.x < width,
        0 <= v2.y < height,
    ensures
        line_pixels(v1, v2, width, height).len() == major_length(v1, v2),
        forall|k: int|
            0 <= k < major_length(v1, v2) ==> {
                let p = #[trigger] line_pixels(v1, v2, width, height)[k];
                &&& near_true_line(v1, v2, p)
                &&& if iabs(v2.y - v1.y) > iabs(v2.x - v1.x) {
                    p.1 == (if v1.y <= v2.y { v1.y as int } else { v2.y as int }) + k
                } else {
                    p.0 == (if v1.x <= v2.x { v1.x as int } else { v2.x as int }) + k
                }
            },
{
    let plan = line_plan(v1, v2, width, height);
    let steep = line_is_steep(v1, v2);
    let (s, e) = line_ends(v1, v2);
    let x_max = plan.x_max;
    let y_max = plan.y_max;
    let n = major_length(v1, v2);
    assert(0 <= s.0 <= e.0 <= x_max);
    assert(0 <= s.1 <= y_max && 0 <= e.1 <= y_max);
    assert(n == e.0 - s.0);
    assert(major_clip(s, e) == s);
    assert(plan.start == s && plan.end == e);
    let dx = plan.delta_x;
    let dy = plan.delta_y;
    let sg = plan.sign_y;
    assert(dx == n);
    assert(e.1 - s.1 == sg * dy);
    assert(sg == 1 || sg == -1);
    if s.0 >= x_max {
        assert(plan_len(plan) == 0);
    } else {
        assert(plan.visible);
        assert(plan_len(plan) == n);
    }
    assert forall|k: int| 0 <= k < n implies {
        let p = #[trigger] line_pixels(v1, v2, width, height)[k];
        &&& near_true_line(v1, v2, p)
        &&& if iabs(v2.y - v1.y) > iabs(v2.x - v1.x) {
            p.1 == (if v1.y <= v2.y { v1.y as int } else { v2.y as int }) + k
        } else {
            p.0 == (if v1.x <= v2.x { v1.x as int } else { v2.x as int }) + k
        }
    } by {
        let p = line_pixels(v1, v2, width, height)[k];
        assert(p == plan_pixel(plan, k));
        lemma_offset_bounds(k, dx, dy);
        let off = bresenham_offset(k, dx, dy);
        let m = sg * off;
        // the cross product in (major, minor) coordinates, from the start
        let cm = m * dx - k * (e.1 - s.1);
        assert(cm == sg * (off * dx - k * dy)) by (nonlinear_arith)
            requires
                cm == m * dx - k * (e.1 - s.1),
                m == sg * off,
                e.1 - s.1 == sg * dy,
        ;
        assert(2 * iabs(cm) <= dx) by (nonlinear_arith)
            requires
                cm == sg * (off * dx - k * dy),
                sg == 1 || sg == -1,
                2 * dx * off <= 2 * k * dy + dx,
                2 * k * dy + dx < 2 * dx * (off + 1),
        ;
        let c = (p.1 - v1.y) * (v2.x - v1.x) - (p.0 - v1.x) * (v2.y - v1.y);
        let a = if steep { (v1.y as int, v1.x as int) } else { (v1.x as int, v1.y as int) };
        let b = if steep { (v2.y as int, v2.x as int) } else { (v2.x as int, v2.y as int) };
        let pm = (s.0 + k, s.1 + m);
        assert(p == (if steep { (pm.1, pm.0) } else { pm }));
        // the same cross product taken from `v1` toward `v2`
        let ca = (pm.1 - a.1) * (b.0 - a.0) - (pm.0 - a.0) * (b.1 - a.1);
        if a.0 > b.0 {
            assert(s == b && e == a);
            assert(ca == -cm) by (nonlinear_arith)
                requires
                    ca == (pm.1 - a.1) * (b.0 - a.0) - (pm.0 - a.0) * (b.1 - a.1),
                    cm == m * dx - k * (e.1 - s.1),
                    dx == e.0 - s.0,
                    pm == (s.0 + k, s.1 + m),
                    s == b,
                    e == a,
            ;
        } else {
            assert(s == a && e == b);
            assert(ca == cm) by (nonlinear_arith)
                requires
                    ca == (pm.1 - a.1) * (b.0 - a.0) - (pm.0 - a.0) * (b.1 - a.1),
                    cm == m * dx - k * (e.1 - s.1),
                    dx == e.0 - s.0,
                    pm == (s.0 + k, s.1 + m),
                    s == a,
                    e == b,
            ;
        }
        if steep {
            assert(c == -ca) by (nonlinear_arith)
                requires
                    c == (p.1 - v1.y) * (v2.x - v1.x) - (p.0 - v1.x) * (v2.y - v1.y),
                    ca == (pm.1 - a.1) * (b.0 - a.0) - (pm.0 - a.0) * (b.1 - a.1),
                    p == (pm.1, pm.0),
                    a == (v1.y as int, v1.x as int),
                    b == (v2.y as int, v2.x as int),
            ;
        } else {
            assert(c == ca);
        }
        assert(2 * iabs(c) <= n);
    }
}

/// Consecutive pixels of a line are neighbours: one step along the major axis
/// (columns, or rows for a steep line) and at most one along the other.
pub proof fn lemma_line_connected(v1: Ivec2, v2: Ivec2, width: int, height: int, k: int)
    requires
        0 <= width,
        0 <= height,
        0 <= k,
        k + 1 < line_pixels(v1, v2, width, height).len(),
    ensures
        ({
            let p = line_pixels(v1, v2, width, height)[k];
            let q = line_pixels(v1, v2, width, height)[k + 1];
            if line_is_steep(v1, v2) {
                q.1 == p.1 + 1 && iabs(q.0 - p.0) <= 1
            } else {
                q.0 == p.0 + 1 && iabs(q.1 - p.1) <= 1
            }
        }),
{
    lemma_plan_facts(v1, v2, width, height);
    let plan = line_plan(v1, v2, width, height);
    lemma_offset_step(k, plan.delta_x, plan.delta_y);
    let c0 = bresenham_offset(k, plan.delta_x, plan.delta_y);
    let c1 = bresenham_offset(k + 1, plan.delta_x, plan.delta_y);
    assert(c1 == c0 || c1 == c0 + 1);
    let sg = plan.sign_y;
    assert(sg == 1 || sg == -1);
    assert(iabs(sg * c1 - sg * c0) <= 1) by (nonlinear_arith)
        requires
            sg == 1 || sg == -1,
            c1 == c0 || c1 == c0 + 1,
    ;
}

} // verus!

verus! {

/// Draws the line from `v1` to `v2` in opaque black (bytes 0, 0, 0, 255) on a
/// row-major canvas of `canvas_width` by `canvas_height` pixels, clipped to the
/// canvas, computing with 64-bit integers so that no coordinate can overflow.
/// The canvas sides must be even. Row and column 0 belong to the canvas: only an
/// end point beyond the last row or column, or below 0, is moved onto the canvas
/// edge.
pub fn draw_line_clipped_i64(
    v1: Ivec2,
    v2: Ivec2,
    canvas: &mut [u32],
    canvas_width: usize,
    canvas_height: usize,
)
    requires
        canvas_width % 2 == 0,
        canvas_height % 2 == 0,
        canvas_width <= i64::MAX,
        canvas_height <= i64::MAX,
        line_fits_i64(v1, v2, canvas_width as int, canvas_height as int),
        forall|k: int|
            0 <= k < line_pixels(v1, v2, canvas_width as int, canvas_height as int).len()
                ==> #[trigger] pixel_index(
                line_pixels(v1, v2, canvas_width as int, canvas_height as int)[k],
                canvas_width as int,
            ) < old(canvas)@.len(),
    ensures
        exists|black: u32|
            #[trigger] is_opaque_black(black) && final(canvas)@ == painted(
                old(canvas)@,
                line_pixels(v1, v2, canvas_width as int, canvas_height as int),
                canvas_width as int,
                black,
            ),
{
    let black = pixel_rgba(0, 0, 0, 255);
    assert(is_opaque_black(black));
    draw_colored_line_clipped_i64(v1, v2, canvas, canvas_width, canvas_height, black);
}

} // verus!

verus! {

// ---------------------------------------------------------------------------
// The same drawer on 32-bit integers.
// ---------------------------------------------------------------------------

/// `d` and its absolute value are 32-bit integers.
pub open spec fn abs_fits_i32(d: int) -> bool {
    -0x7fff_ffff <= d <= 0x7fff_ffff
}

/// Moving an end point onto a canvas edge (`base + a * b / d`) stays within 32 bits.
pub open spec fn clip_fits_i32(a: int, b: int, d: int, base: int) -> bool {
    &&& in_i32(a)
    &&& in_i32(b)
    &&& in_i32(d)
    &&& in_i32(a * b)
    &&& in_i32(trunc_div(a * b, d))
    &&& in_i32(trunc_div(a * b, d) + base)
}

/// Every intermediate value of the 32-bit line drawer fits in 32 bits for this
/// line and canvas.
pub open spec fn line_fits_i32(v1: Ivec2, v2: Ivec2, width: int, height: int) -> bool {
    let steep = line_is_steep(v1, v2);
    let (s, e) = line_ends(v1, v2);
    let x_max = if steep { height - 1 } else { width - 1 };
    let y_max = if steep { width - 1 } else { height - 1 };
    let p1 = major_clip(s, e);
    let start_out = minor_outside(p1.1, y_max);
    let end_out = minor_outside(e.1, y_max);
    let reach_minor = s.0 < x_max && !(s.0 < 0 && e.0 < 0);
    let plan = line_plan(v1, v2, width, height);
    &&& abs_fits_i32(v2.y - v1.y)
    &&& abs_fits_i32(v2.x - v1.x)
    &&& (s.0 < x_max && s.0 < 0 && e.0 >= 0) ==> (s.0 > i32::MIN && in_i32((e.1 - s.1) * (0 - s.0)))
    &&& (reach_minor && start_out && !end_out) ==> clip_fits_i32(
        e.0 - p1.0,
        minor_edge(p1.1, y_max) - p1.1,
        e.1 - p1.1,
        p1.0,
    )
    &&& (reach_minor && !start_out && end_out) ==> clip_fits_i32(
        p1.0 - e.0,
        minor_edge(e.1, y_max) - e.1,
        p1.1 - e.1,
        e.0,
    )
    &&& plan_len(plan) > 0 ==> in_i32(2 * plan.delta_x)
}

/// A coordinate within 2^14 of the origin.
pub open spec fn small_coord(a: int) -> bool {
    -0x4000 <= a <= 0x4000
}

/// A line whose end points lie within 2^14 of the origin, on a canvas whose sides
/// are at most 2^14 pixels, keeps every intermediate value within 32 bits, so
/// both drawers accept it (and then draw the same pixels, `line_pixels`).
pub proof fn lemma_small_line_fits(v1: Ivec2, v2: Ivec2, width: int, height: int)
    requires
        small_coord(v1.x as int),
        small_coord(v1.y as int),
        small_coord(v2.x as int),
        small_coord(v2.y as int),
        0 <= width <= 0x4000,
        0 <= height <= 0x4000,
    ensures
        line_fits_i32(v1, v2, width, height),
        line_fits_i64(v1, v2, width, height),
{
    lemma_line_fits_i64(v1, v2, width, height);
    let steep = line_is_steep(v1, v2);
    let (s, e) = line_ends(v1, v2);
    let x_max = if steep { height - 1 } else { width - 1 };
    let y_max = if steep { width - 1 } else { height - 1 };
    let p1 = major_clip(s, e);
    let reach_minor = s.0 < x_max && !(s.0 < 0 && e.0 < 0);
    assert(small_coord(s.0) && small_coord(s.1) && small_coord(e.0) && small_coord(e.1));
    assert(s.0 <= e.0);
    if s.0 < 0 && e.0 >= 0 {
        lemma_major_clip(s, e);
        let dy = iabs(e.1 - s.1);
        let t0 = -s.0;
        assert(iabs((e.1 - s.1) * (0 - s.0)) <= 0x8000 * 0x4000) by (nonlinear_arith)
            requires
                iabs(e.1 - s.1) <= 0x8000,
                0 < t0 <= 0x4000,
                t0 == 0 - s.0,
        ;
        let sg: int = if e.1 - s.1 > 0 { 1 } else { -1 };
        let a = (dy * t0) / (e.0 - s.0);
        assert(p1.1 == s.1 + sg * a);
        if sg == 1 {
            assert(sg * a == a) by (nonlinear_arith)
                requires
                    sg == 1,
            ;
            assert(s.1 <= p1.1 <= e.1);
        } else {
            assert(sg * a == -a) by (nonlinear_arith)
                requires
                    sg == -1,
            ;
            assert(e.1 <= p1.1 <= s.1);
        }
    }
    if reach_minor {
        assert(small_coord(p1.1) && 0 <= p1.0 <= e.0);
        let start_out = minor_outside(p1.1, y_max);
        let end_out = minor_outside(e.1, y_max);
        if start_out && !end_out {
            lemma_small_clip(e.0 - p1.0, minor_edge(p1.1, y_max) - p1.1, e.1 - p1.1, p1.0);
        }
        if !start_out && end_out {
            lemma_small_clip(p1.0 - e.0, minor_edge(e.1, y_max) - e.1, p1.1 - e.1, e.0);
        }
    }
}

/// Moving an end point onto a canvas edge stays within 32 bits when the
/// quantities involved are below 2^15.
proof fn lemma_small_clip(a: int, b: int, d: int, base: int)
    requires
        iabs(a) <= 0x8000,
        iabs(b) <= 0x8000,
        iabs(d) <= 0x8000,
        d != 0,
        small_coord(base),
    ensures
        clip_fits_i32(a, b, d, base),
{
    assert(iabs(a * b) <= 0x8000 * 0x8000) by (nonlinear_arith)
        requires
            iabs(a) <= 0x8000,
            iabs(b) <= 0x8000,
    ;
    lemma_trunc_div(a * b, d);
}

fn abs_i32(a: i32) -> (r: i32)
    requires
        a > i32::MIN,
    ensures
        r == iabs(a as int),
{
    if a < 0 { -a } else { a }
}

/// The outcome of clipping a line on 32-bit integers.
struct ClippedLine32 {
    steep: bool,
    start: Ivec2,
    end: Ivec2,
    delta_x: i32,
    delta_y: i32,
    sign_y: i32,
    x_max: i32,
}

/// Moves the end point `from` along the line toward `to` until its minor
/// coordinate is `new_y` (similar triangles, rounding toward zero).
fn clip_toward_i32(from: Ivec2, to: Ivec2, new_y: i32) -> (r: Ivec2)
    requires
        to.y != from.y,
        clip_fits_i32(to.x - from.x, new_y - from.y, to.y - from.y, from.x as int),
    ensures
        r.y == new_y,
        r.x == trunc_div((to.x - from.x) * (new_y - from.y), to.y - from.y) + from.x,
{
    let num = (to.x - from.x) * (new_y - from.y);
    let den = to.y - from.y;
    proof {
        if num == i32::MIN && den == -1 {
            lemma_div_neg_divisor(0x8000_0000, 1);
            assert(trunc_div(num as int, den as int) == 0x8000_0000);
        }
    }
    let new_x = num / den + from.x;
    ivec2(new_x, new_y)
}

/// Moves the start onto major coordinate 0.
fn clip_major_i32(start: Ivec2, end: Ivec2) -> (r: Ivec2)
    requires
        start.x < 0 <= end.x,
        start.x > i32::MIN,
        in_i32(end.y - start.y),
        in_i32(end.x - start.x),
        in_i32((end.y - start.y) * (0 - start.x)),
    ensures
        (r.x as int, r.y as int) == major_clip(
            (start.x as int, start.y as int),
            (end.x as int, end.y as int),
        ),
{
    let ghost s = (start.x as int, start.y as int);
    let ghost e = (end.x as int, end.y as int);
    proof {
        lemma_major_clip(s, e);
    }
    let new_x: i32 = 0;
    // use similar triangles to compute intersection of
    // line and canvas edge (without floating point arithmetic)
    let new_y = (end.y - start.y) * (0 - start.x) / (end.x - start.x) + start.y;
    ivec2(new_x, new_y)
}

fn clip_line_i32(v1: Ivec2, v2: Ivec2, canvas_width: usize, canvas_height: usize) -> (r: Option<
    ClippedLine32,
>)
    requires
        canvas_width <= i32::MAX,
        canvas_height <= i32::MAX,
        line_fits_i32(v1, v2, canvas_width as int, canvas_height as int),
    ensures
        ({
            let plan = line_plan(v1, v2, canvas_width as int, canvas_height as int);
            match r {
                None => !plan.visible,
                Some(c) => {
                    &&& plan.visible
                    &&& c.steep == plan.steep
                    &&& plan.start == (c.start.x as int, c.start.y as int)
                    &&& plan.end == (c.end.x as int, c.end.y as int)
                    &&& c.delta_x == plan.delta_x
                    &&& c.delta_y == plan.delta_y
                    &&& c.sign_y == plan.sign_y
                    &&& c.x_max == plan.x_max
                }
            }
        }),
{
    let ghost (s, e) = line_ends(v1, v2);
    let mut v1 = v1;
    let mut v2 = v2;

    // whether line is longer vertically than horizontally
    let is_steep = abs_i32(v2.y - v1.y) > abs_i32(v2.x - v1.x);

    // if line is steep, swap x for y and iterate on rows instead of columns
    if is_steep {
        let t = v1.x;
        v1.x = v1.y;
        v1.y = t;
        let t = v2.x;
        v2.x = v2.y;
        v2.y = t;
    }

    // set 'start' to be the point with the lowest x-coordinate
    let (mut start, mut end) = if v1.x > v2.x { (v2, v1) } else { (v1, v2) };
    assert(start.x == s.0 && start.y == s.1 && end.x == e.0 && end.y == e.1);

    let delta_x = end.x - start.x;
    let delta_y = abs_i32(end.y - start.y);
    let sign_delta_y: i32 = if end.y - start.y > 0 { 1 } else { -1 };

    let (x_max, y_max) = if is_steep {
        (canvas_height as i32 - 1, canvas_width as i32 - 1)
    } else {
        (canvas_width as i32 - 1, canvas_height as i32 - 1)
    };

    // perform clipping
    if start.x >= x_max {
        // both points are outside of canvas
        return None;
    }
    if start.x < 0 {
        if end.x < 0 {
            // outside of canvas
            return None;
        }
        start = clip_major_i32(start, end);
    }
    let ghost p1 = (start.x as int, start.y as int);
    assert(p1 == major_clip(s, e));

    let ghost start_out = minor_outside(p1.1, y_max as int);
    let ghost end_out = minor_outside(e.1, y_max as int);

    // if 'start.y' is greater than y_max or less than
    // zero, adjust 'start' to fit inside canvas
    if start.y < 0 || start.y > y_max {
        if end.y < 0 || end.y > y_max {
            // both are outside of canvas
            return None;
        }
        let new_y = if start.y < 0 { 0 } else { y_max };
        start = clip_toward_i32(start, end, new_y);
    }
    assert((start.x as int, start.y as int) == minor_clip_start(p1, e, y_max as int));

    // if 'end.y' is greater than y_max or less than
    // zero, adjust 'end' to fit inside canvas
    if end.y < 0 || end.y > y_max {
        assert(end_out && !start_out);
        let new_y = if end.y < 0 { 0 } else { y_max };
        end = clip_toward_i32(end, start, new_y);
    }
    Some(
        ClippedLine32 {
            steep: is_steep,
            start,
            end,
            delta_x,
            delta_y,
            sign_y: sign_delta_y,
            x_max,
        },
    )
}

} // verus!

verus! {

/// Draws the line from `v1` to `v2` in opaque black on a row-major canvas of
/// `canvas_width` by `canvas_height` pixels, clipped to the canvas, computing
/// with 32-bit integers: the same pixels as `draw_line_clipped_i64` for every
/// line whose intermediate values fit in 32 bits. The canvas sides must be even;
/// row and column 0 belong to the canvas.
pub fn draw_line_clipped(
    v1: Ivec2,
    v2: Ivec2,
    canvas: &mut [u32],
    canvas_width: usize,
    canvas_height: usize,
)
    requires
        canvas_width % 2 == 0,
        canvas_height % 2 == 0,
        canvas_width <= i32::MAX,
        canvas_height <= i32::MAX,
        line_fits_i32(v1, v2, canvas_width as int, canvas_height as int),
        forall|k: int|
            0 <= k < line_pixels(v1, v2, canvas_width as int, canvas_height as int).len()
                ==> #[trigger] pixel_index(
                line_pixels(v1, v2, canvas_width as int, canvas_height as int)[k],
                canvas_width as int,
            ) < old(canvas)@.len(),
    ensures
        exists|black: u32|
            #[trigger] is_opaque_black(black) && final(canvas)@ == painted(
                old(canvas)@,
                line_pixels(v1, v2, canvas_width as int, canvas_height as int),
                canvas_width as int,
                black,
            ),
{
    let ghost w = canvas_width as int;
    let ghost h = canvas_height as int;
    let ghost plan = line_plan(v1, v2, w, h);
    let ghost pixels = line_pixels(v1, v2, w, h);
    let ghost old_canvas = canvas@;
    let black = pixel_rgba(0, 0, 0, 255);
    assert(is_opaque_black(black));
    proof {
        lemma_plan_facts(v1, v2, w, h);
    }
    let c = match clip_line_i32(v1, v2, canvas_width, canvas_height) {
        None => {
            assert(painted(old_canvas, pixels, w, black) =~= old_canvas);
            return ;
        },
        Some(c) => c,
    };

    // 'err_bound' represents the distance from the current pixel center
    // to the line directly below/above, multiplied by (-2) * delta_x. when
    // this is smaller than 0, y is incremented/decremented
    let mut err_bound = c.delta_x;
    let mut y = c.start.y;
    let stop = if c.end.x < c.x_max { c.end.x } else { c.x_max };
    let mut x = c.start.x;
    let ghost n = plan_len(plan);
    assert(pixels.len() == n);
    proof {
        if n > 0 {
            lemma_offset_bounds(0, c.delta_x as int, c.delta_y as int);
            assert(2 * 0 * c.delta_y == 0) by (nonlinear_arith);
            lemma_fundamental_div_mod_converse(c.delta_x as int, 2 * c.delta_x, 0, c.delta_x as int);
            assert(bresenham_offset(x - c.start.x, c.delta_x as int, c.delta_y as int) == 0);
            assert(2 * (x - c.start.x) * c.delta_y == 0) by (nonlinear_arith)
                requires
                    x - c.start.x == 0,
            ;
        }
    }
    assert(painted(old_canvas, pixels.take(0), w, black) =~= old_canvas);
    let canvas_len = canvas.len();
    while x < stop
        invariant
            plan == line_plan(v1, v2, w, h),
            pixels == line_pixels(v1, v2, w, h),
            w == canvas_width,
            h == canvas_height,
            plan.x_max == (if plan.steep { h - 1 } else { w - 1 }),
            plan.y_max == (if plan.steep { w - 1 } else { h - 1 }),
            plan.visible,
            c.steep == plan.steep,
            plan.start == (c.start.x as int, c.start.y as int),
            c.delta_x == plan.delta_x,
            c.delta_y == plan.delta_y,
            c.sign_y == plan.sign_y,
            n == plan_len(plan),
            n == pixels.len(),
            n == (if stop > c.start.x { stop - c.start.x } else { 0 }),
            n > 0 ==> in_i32(2 * plan.delta_x),
            c.start.x <= x,
            x - c.start.x <= n,
            n > 0 ==> c.delta_x > 0,
            n > 0 ==> (y == c.start.y + c.sign_y * bresenham_offset(
                x - c.start.x,
                c.delta_x as int,
                c.delta_y as int,
            )),
            n > 0 ==> err_bound == c.delta_x - 2 * (x - c.start.x) * c.delta_y + 2 * bresenham_offset(
                x - c.start.x,
                c.delta_x as int,
                c.delta_y as int,
            ) * c.delta_x,
            0 <= c.delta_y <= c.delta_x,
            canvas@.len() == old_canvas.len(),
            canvas_len == old_canvas.len(),
            canvas@ == painted(old_canvas, pixels.take(x - c.start.x), w, black),
            forall|k: int| 0 <= k < n ==> #[trigger] pixel_index(pixels[k], w) < old_canvas.len(),
            forall|k: int|
                0 <= k < plan_len(plan) ==> {
                    &&& plan.start.0 + k < plan.x_max
                    &&& 0 <= #[trigger] (plan.start.1 + plan.sign_y * bresenham_offset(
                        k,
                        plan.delta_x,
                        plan.delta_y,
                    )) <= plan.y_max
                },
            plan_len(plan) > 0 ==> 0 <= plan.start.0,
            plan.x_max < 0x7fff_ffff,
            plan.y_max < 0x7fff_ffff,
        decreases stop - x,
    {
        let ghost k = x - c.start.x;
        let ghost off = bresenham_offset(k, c.delta_x as int, c.delta_y as int);
        proof {
            lemma_offset_step(k, c.delta_x as int, c.delta_y as int);
            assert(0 <= plan.start.1 + plan.sign_y * off <= plan.y_max);
            assert(pixels[k] == plan_pixel(plan, k));
        }
        // account for the fact that we may have swapped our x and y-values
        if c.steep {
            assert(pixel_index(pixels[k], w) == x * w + y);
            canvas[x as usize * canvas_width + y as usize] = black;
        } else {
            assert(pixel_index(pixels[k], w) == y * w + x);
            canvas[y as usize * canvas_width + x as usize] = black;
        }
        proof {
            lemma_paint_step(old_canvas, pixels, w, black, k);
        }
        err_bound -= 2 * c.delta_y;
        // err_bound <= 0 is equivalent to the distance from
        // the line to the current pixel center being >= 0.5
        if err_bound <= 0 {
            // increment or decrement y by 1 depending on
            // whether we're moving downwards or upwards
            y += c.sign_y;
            // readjust err_bound so it represents distance
            // from next pixel (multiplied by (-2) * delta_x)
            err_bound += 2 * c.delta_x;
        }
        x += 1;
    }
    assert(x - c.start.x == n || n == 0);
    assert(pixels.take(n) =~= pixels);
}

} // verus!
