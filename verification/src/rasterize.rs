use vstd::prelude::*;
use vstd::arithmetic::div_mod::*;
use vstd::std_specs::ops::{MulSpec, SubSpec};

use crate::math::{Ivec2, Vec2, clamp_i, spec_clamp, vec2};

verus! {

/// The edge function `(v0 - v1) x (v1v2)` with x and y swapped (up is negative in
/// raster space): positive when `v0` lies to the right of the vector `v1v2`
/// starting at `v1`.
pub open spec fn edge_value(v0: (int, int), v1: (int, int), v1v2: (int, int)) -> int {
    (v0.1 - v1.1) * v1v2.0 - (v0.0 - v1.0) * v1v2.1
}

/// The edge function: positive if the point `v0` is to the right of the vector
/// `v1v2` starting at `v1` in raster space. Computed with `T`'s own operators;
/// where they follow the integer specifications the result is exactly
/// `(v0.y - v1.y) * v1v2.x - (v0.x - v1.x) * v1v2.y`, which must then stay in
/// range; operators with other specifications must accept every operand.
pub fn edge<T>(v0: Vec2<T>, v1: Vec2<T>, v1v2: Vec2<T>) -> (r: T) where
    T: core::ops::Mul<Output = T> + core::ops::Sub<Output = T>,

    requires
        T::obeys_sub_spec() && T::obeys_mul_spec() ==> {
            &&& v0.x.sub_req(v1.x)
            &&& v0.y.sub_req(v1.y)
            &&& v0.y.sub_spec(v1.y).mul_req(v1v2.x)
            &&& v0.x.sub_spec(v1.x).mul_req(v1v2.y)
            &&& v0.y.sub_spec(v1.y).mul_spec(v1v2.x).sub_req(
                v0.x.sub_spec(v1.x).mul_spec(v1v2.y),
            )
        },
        !(T::obeys_sub_spec() && T::obeys_mul_spec()) ==> forall|a: T, b: T|
            #![trigger a.sub_req(b)]
            #![trigger a.mul_req(b)]
            a.sub_req(b) && a.mul_req(b),
    ensures
        T::obeys_sub_spec() && T::obeys_mul_spec() ==> r == v0.y.sub_spec(v1.y).mul_spec(
            v1v2.x,
        ).sub_spec(v0.x.sub_spec(v1.x).mul_spec(v1v2.y)),
{
    let v1v0 = v0 - v1;
    // swap x and y when computing the determinant of the matrix [v1v0, v1v2]
    // to compensate for the fact that up is negative in raster space
    v1v0.y * v1v2.x - v1v0.x * v1v2.y
}

/// On 32-bit integers, where no step overflows, `edge` computes `edge_value`.
pub proof fn lemma_edge_i32(v0: Vec2<i32>, v1: Vec2<i32>, d: Vec2<i32>)
    requires
        v0.x.sub_req(v1.x),
        v0.y.sub_req(v1.y),
        v0.y.sub_spec(v1.y).mul_req(d.x),
        v0.x.sub_spec(v1.x).mul_req(d.y),
        v0.y.sub_spec(v1.y).mul_spec(d.x).sub_req(v0.x.sub_spec(v1.x).mul_spec(d.y)),
    ensures
        v0.y.sub_spec(v1.y).mul_spec(d.x).sub_spec(v0.x.sub_spec(v1.x).mul_spec(d.y))
            == edge_value(
            (v0.x as int, v0.y as int),
            (v1.x as int, v1.y as int),
            (d.x as int, d.y as int),
        ),
{
}

/// The edge function is zero at the start and at the end of the vector, and
/// changes sign when the vector is reversed.
pub proof fn lemma_edge_value_laws(v0: (int, int), v1: (int, int), d: (int, int))
    ensures
        edge_value(v1, v1, d) == 0,
        edge_value((v1.0 + d.0, v1.1 + d.1), v1, d) == 0,
        edge_value(v0, v1, (-d.0, -d.1)) == -edge_value(v0, v1, d),
{
    assert(edge_value((v1.0 + d.0, v1.1 + d.1), v1, d) == 0) by (nonlinear_arith);
    assert(edge_value(v0, v1, (-d.0, -d.1)) == -edge_value(v0, v1, d)) by (nonlinear_arith);
}

pub open spec fn small(a: i128) -> bool {
    -0x100_0000_0000 <= a <= 0x100_0000_0000
}

pub open spec fn point(v: Vec2<i128>) -> (int, int) {
    (v.x as int, v.y as int)
}

/// For coordinates below 2^40 in magnitude the edge function on `i128` is
/// computed without overflow and equals the mathematical edge function.
proof fn lemma_edge_i128(v0: Vec2<i128>, v1: Vec2<i128>, v1v2: Vec2<i128>)
    requires
        small(v0.x),
        small(v0.y),
        small(v1.x),
        small(v1.y),
        small(v1v2.x),
        small(v1v2.y),
    ensures
        v0.x.sub_req(v1.x),
        v0.y.sub_req(v1.y),
        v0.y.sub_spec(v1.y).mul_req(v1v2.x),
        v0.x.sub_spec(v1.x).mul_req(v1v2.y),
        v0.y.sub_spec(v1.y).mul_spec(v1v2.x).sub_req(v0.x.sub_spec(v1.x).mul_spec(v1v2.y)),
        v0.y.sub_spec(v1.y).mul_spec(v1v2.x).sub_spec(v0.x.sub_spec(v1.x).mul_spec(v1v2.y))
            == edge_value(point(v0), point(v1), point(v1v2)),
{
    let dx = v0.x - v1.x;
    let dy = v0.y - v1.y;
    assert(dy * v1v2.x <= 0x200_0000_0000 * 0x100_0000_0000 && dy * v1v2.x >= -0x200_0000_0000
        * 0x100_0000_0000) by (nonlinear_arith)
        requires
            -0x200_0000_0000 <= dy <= 0x200_0000_0000,
            -0x100_0000_0000 <= v1v2.x <= 0x100_0000_0000,
    ;
    assert(dx * v1v2.y <= 0x200_0000_0000 * 0x100_0000_0000 && dx * v1v2.y >= -0x200_0000_0000
        * 0x100_0000_0000) by (nonlinear_arith)
        requires
            -0x200_0000_0000 <= dx <= 0x200_0000_0000,
            -0x100_0000_0000 <= v1v2.y <= 0x100_0000_0000,
    ;
}

proof fn lemma_shr4_i128(x: i128)
    ensures
        (x >> 4) as int == (x as int) / 16,
{
    assert((x >> 4) * 16 <= x && x < (x >> 4) * 16 + 16) by (bit_vector);
    lemma_fundamental_div_mod_converse(x as int, 16, (x >> 4) as int, x - (x >> 4) * 16);
}

} // verus!

verus! {

proof fn lemma_shl4_i32(x: i32)
    requires
        -1 <= x < 0x800_0000,
    ensures
        x << 4 == x * 16,
{
    assert(x << 4 == x * 16) by (bit_vector)
        requires
            -1 <= x < 0x800_0000,
    ;
}

proof fn lemma_shr4_i32(x: i32)
    requires
        0 <= x,
    ensures
        x >> 4 == x / 16,
{
    assert(x >> 4 == x / 16) by (bit_vector)
        requires
            0 <= x,
    ;
}

proof fn lemma_mask_u32(x: u32)
    ensures
        x & u32::MAX == x,
        x & 0 == 0,
{
    assert(x & u32::MAX == x) by (bit_vector);
    assert(x & 0 == 0) by (bit_vector);
}

// ---------------------------------------------------------------------------
// The coverage model.
// ---------------------------------------------------------------------------

/// A raster position in 28.4 fixed point.
pub open spec fn fixed(v: Ivec2) -> (int, int) {
    (v.x as int, v.y as int)
}

pub open spec fn diff(a: (int, int), b: (int, int)) -> (int, int) {
    (a.0 - b.0, a.1 - b.1)
}

/// Whether an edge vector is a 'top' or a 'left' edge of a triangle.
pub open spec fn top_or_left(e: (int, int)) -> bool {
    (e.1 == 0 && e.0 > 0) || e.1 < 0
}

pub open spec fn max3(a: int, b: int, c: int) -> int {
    let m = if b >= c { b } else { c };
    if a >= m { a } else { m }
}

pub open spec fn min3(a: int, b: int, c: int) -> int {
    let m = if b <= c { b } else { c };
    if a <= m { a } else { m }
}

/// The pixel rectangle searched for covered pixels: columns `x_min..x_max` and
/// rows `y_min..y_max`.
pub struct PixelBox {
    pub x_min: int,
    pub x_max: int,
    pub y_min: int,
    pub y_max: int,
}

/// The bounding box of the triangle clamped to the canvas, each bound rounded to
/// the pixel whose center lies at or past it.
pub open spec fn pixel_box(v1: Ivec2, v2: Ivec2, v3: Ivec2, width: int, height: int) -> PixelBox {
    PixelBox {
        x_min: (spec_clamp(0, (width - 1) * 16, min3(v1.x as int, v2.x as int, v3.x as int)) + 7) / 16,
        x_max: (spec_clamp(0, width * 16, max3(v1.x as int, v2.x as int, v3.x as int)) + 7) / 16,
        y_min: (spec_clamp(0, height * 16, min3(v1.y as int, v2.y as int, v3.y as int)) + 7) / 16,
        y_max: (spec_clamp(0, height * 16, max3(v1.y as int, v2.y as int, v3.y as int)) + 7) / 16,
    }
}

/// Twice the signed area of the triangle, in units of 1/16 pixel (positive when
/// the vertices are in counter-clockwise order on the screen).
pub open spec fn triangle_area(v1: Ivec2, v2: Ivec2, v3: Ivec2) -> int {
    let v3v2 = diff(fixed(v2), fixed(v3));
    let v2v1 = diff(fixed(v1), fixed(v2));
    (v3v2.0 * v2v1.1 - v3v2.1 * v2v1.0) / 16
}

/// The center of a pixel in fixed point.
pub open spec fn pixel_center(col: int, row: int) -> (int, int) {
    (col * 16 + 8, row * 16 + 8)
}

pub open spec fn bias(b: bool) -> int {
    if b { 1 } else { 0 }
}

/// The three sub-triangle areas tested for the pixel at (`col`, `row`): each edge
/// function at the pixel center in units of 1/16 pixel, minus one, plus one for
/// a top or left edge, so that a pixel whose center lies on such an edge counts
/// as inside.
pub open spec fn coverage_values(v1: Ivec2, v2: Ivec2, v3: Ivec2, col: int, row: int) -> (
    int,
    int,
    int,
) {
    let p = pixel_center(col, row);
    let v3v2 = diff(fixed(v2), fixed(v3));
    let v2v1 = diff(fixed(v1), fixed(v2));
    let v1v3 = diff(fixed(v3), fixed(v1));
    (
        edge_value(p, fixed(v2), v2v1) / 16 - 1 + bias(top_or_left(v2v1)),
        edge_value(p, fixed(v3), v3v2) / 16 - 1 + bias(top_or_left(v3v2)),
        edge_value(p, fixed(v1), v1v3) / 16 - 1 + bias(top_or_left(v1v3)),
    )
}

/// Whether the pixel at (`col`, `row`) is drawn for the triangle: the triangle is
/// counter-clockwise, the pixel lies in the searched box and all three tested
/// values are non-negative.
pub open spec fn pixel_covered(
    v1: Ivec2,
    v2: Ivec2,
    v3: Ivec2,
    width: int,
    height: int,
    col: int,
    row: int,
) -> bool {
    let bx = pixel_box(v1, v2, v3, width, height);
    let t = coverage_values(v1, v2, v3, col, row);
    &&& triangle_area(v1, v2, v3) > 0
    &&& bx.y_min <= row < bx.y_max
    &&& bx.x_min <= col < bx.x_max
    &&& t.0 >= 0
    &&& t.1 >= 0
    &&& t.2 >= 0
}

/// A pixel covered by a triangle, with its three sub-triangle areas.
#[derive(Copy, Clone, Debug)]
pub struct Fragment {
    pub col: usize,
    pub row: usize,
    pub area1: i128,
    pub area2: i128,
    pub area3: i128,
}

/// The pixels covered by a triangle, in row-major order.
pub struct Coverage {
    /// twice the signed area of the triangle (in 1/16 pixel)
    pub area_tri: i128,
    pub fragments: Vec<Fragment>,
}

/// `f` is the pixel (`col`, `row`) of the triangle, with the right areas.
pub open spec fn fragment_of(
    v1: Ivec2,
    v2: Ivec2,
    v3: Ivec2,
    width: int,
    height: int,
    f: Fragment,
) -> bool {
    let bx = pixel_box(v1, v2, v3, width, height);
    &&& pixel_covered(v1, v2, v3, width, height, f.col as int, f.row as int)
    &&& coverage_values(v1, v2, v3, f.col as int, f.row as int) == (
        f.area1 as int,
        f.area2 as int,
        f.area3 as int,
    )
}

/// Row-major order of pixels.
pub open spec fn row_major_before(a: (int, int), b: (int, int)) -> bool {
    a.1 < b.1 || (a.1 == b.1 && a.0 < b.0)
}

pub open spec fn fragment_pos(f: Fragment) -> (int, int) {
    (f.col as int, f.row as int)
}

/// `fragments` lists exactly the covered pixels of the triangle, in row-major order.
pub open spec fn is_coverage(
    v1: Ivec2,
    v2: Ivec2,
    v3: Ivec2,
    width: int,
    height: int,
    fragments: Seq<Fragment>,
) -> bool {
    &&& forall|n: int|
        0 <= n < fragments.len() ==> #[trigger] fragment_of(v1, v2, v3, width, height, fragments[n])
    &&& forall|n: int, m: int|
        0 <= n < m < fragments.len() ==> row_major_before(
            fragment_pos(#[trigger] fragments[n]),
            fragment_pos(#[trigger] fragments[m]),
        )
    &&& forall|col: int, row: int|
        #[trigger] pixel_covered(v1, v2, v3, width, height, col, row) ==> exists|n: int|
            0 <= n < fragments.len() && fragment_pos(#[trigger] fragments[n]) == (col, row)
}

} // verus!

verus! {

proof fn lemma_edge_step(p: (int, int), a: (int, int), ab: (int, int))
    ensures
        edge_value((p.0 + 16, p.1), a, ab) == edge_value(p, a, ab) - 16 * ab.1,
        edge_value((p.0, p.1 + 16), a, ab) == edge_value(p, a, ab) + 16 * ab.0,
{
    assert(edge_value((p.0 + 16, p.1), a, ab) == edge_value(p, a, ab) - 16 * ab.1) by (nonlinear_arith);
    assert(edge_value((p.0, p.1 + 16), a, ab) == edge_value(p, a, ab) + 16 * ab.0) by (nonlinear_arith);
}

proof fn lemma_floor_shift(e: int, m: int)
    ensures
        (e + 16 * m) / 16 == e / 16 + m,
{
    lemma_fundamental_div_mod(e, 16);
    lemma_mod_bound(e, 16);
    lemma_fundamental_div_mod_converse(e + 16 * m, 16, e / 16 + m, e % 16);
}

pub open spec fn bounded(a: int, b: int) -> bool {
    -b <= a <= b
}

proof fn lemma_edge_bound(p: (int, int), a: (int, int), ab: (int, int))
    requires
        bounded(p.0, 0x2_0000_0000),
        bounded(p.1, 0x2_0000_0000),
        bounded(a.0, 0x8000_0000),
        bounded(a.1, 0x8000_0000),
        bounded(ab.0, 0x1_0000_0000),
        bounded(ab.1, 0x1_0000_0000),
    ensures
        bounded(edge_value(p, a, ab), 0x100_0000_0000_0000_0000),
{
    let dy = p.1 - a.1;
    let dx = p.0 - a.0;
    assert(bounded(dy * ab.0, 0x80_0000_0000_0000_0000)) by (nonlinear_arith)
        requires
            bounded(dy, 0x4_0000_0000),
            bounded(ab.0, 0x1_0000_0000),
    ;
    assert(bounded(dx * ab.1, 0x80_0000_0000_0000_0000)) by (nonlinear_arith)
        requires
            bounded(dx, 0x4_0000_0000),
            bounded(ab.1, 0x1_0000_0000),
    ;
}

fn max_i32(a: i32, b: i32) -> (r: i32)
    ensures
        r == (if a >= b { a } else { b }),
{
    if a >= b { a } else { b }
}

fn min_i32(a: i32, b: i32) -> (r: i32)
    ensures
        r == (if a <= b { a } else { b }),
{
    if a <= b { a } else { b }
}

/// The pixels covered by the triangle with fixed-point (28.4) vertices `v1_i`,
/// `v2_i`, `v3_i` on a canvas of `canvas_width` by `canvas_height` pixels, in
/// row-major order. Only counter-clockwise triangles cover pixels. A pixel is
/// covered when its three tested values (`coverage_values`) are non-negative,
/// where the bias of a top or left edge makes a pixel whose center lies on that
/// edge count as inside (the 'top-left' rule). The bias is added once per pixel,
/// to that pixel's tested values and areas only: it does not carry over to the
/// next pixel of the row.
pub fn fixed_point_coverage(
    v1_i: Ivec2,
    v2_i: Ivec2,
    v3_i: Ivec2,
    canvas_width: usize,
    canvas_height: usize,
) -> (r: Coverage)
    requires
        canvas_width < 0x800_0000,
        canvas_height < 0x800_0000,
    ensures
        r.area_tri == triangle_area(v1_i, v2_i, v3_i),
        is_coverage(v1_i, v2_i, v3_i, canvas_width as int, canvas_height as int, r.fragments@),
{
    let ghost w = canvas_width as int;
    let ghost h = canvas_height as int;
    let ghost bx = pixel_box(v1_i, v2_i, v3_i, w, h);
    let a = vec2(v1_i.x as i128, v1_i.y as i128);
    let b = vec2(v2_i.x as i128, v2_i.y as i128);
    let c = vec2(v3_i.x as i128, v3_i.y as i128);

    // get edge vectors in fixed point (28.4 format)
    let v3v2_i = b - c;
    let v2v1_i = a - b;
    let v1v3_i = c - a;
    let ghost e32 = diff(fixed(v2_i), fixed(v3_i));
    let ghost e21 = diff(fixed(v1_i), fixed(v2_i));
    let ghost e13 = diff(fixed(v3_i), fixed(v1_i));
    assert(point(v3v2_i) == e32 && point(v2v1_i) == e21 && point(v1v3_i) == e13);

    // compute twice the (signed) area of the triangle v1v2v3
    proof {
        assert(bounded(e32.0 * e21.1, 0x1_0000_0000_0000_0000)) by (nonlinear_arith)
            requires
                bounded(e32.0, 0x1_0000_0000),
                bounded(e21.1, 0x1_0000_0000),
        ;
        assert(bounded(e32.1 * e21.0, 0x1_0000_0000_0000_0000)) by (nonlinear_arith)
            requires
                bounded(e32.1, 0x1_0000_0000),
                bounded(e21.0, 0x1_0000_0000),
        ;
    }
    let twice_area = v3v2_i.x * v2v1_i.y - v3v2_i.y * v2v1_i.x;
    proof {
        lemma_shr4_i128(twice_area);
    }
    let area_tri = twice_area >> 4;

    // get bounding box coordinates
    proof {
        lemma_shl4_i32(canvas_height as i32);
        lemma_shl4_i32(canvas_width as i32);
        lemma_shl4_i32((canvas_width as i32 - 1) as i32);
    }
    let y_max_c = clamp_i(
        0,
        (canvas_height as i32) << 4,
        max_i32(v1_i.y, max_i32(v2_i.y, v3_i.y)),
        // round up to nearest pixel center by adding 0.4 (7 in 28.4 format),
        // truncating and then adding 0.5 when computing 'start_pixel' later
    ) + 7;
    let y_min_c = clamp_i(0, (canvas_height as i32) << 4, min_i32(v1_i.y, min_i32(v2_i.y, v3_i.y)))
        + 7;
    let x_max_c = clamp_i(0, (canvas_width as i32) << 4, max_i32(v1_i.x, max_i32(v2_i.x, v3_i.x)))
        + 7;
    let x_min_c = clamp_i(
        0,
        (canvas_width as i32 - 1) << 4,
        min_i32(v1_i.x, min_i32(v2_i.x, v3_i.x)),
    ) + 7;
    proof {
        lemma_shr4_i32(y_max_c);
        lemma_shr4_i32(y_min_c);
        lemma_shr4_i32(x_max_c);
        lemma_shr4_i32(x_min_c);
    }
    let y_max = y_max_c >> 4;
    let y_min = y_min_c >> 4;
    let x_max = x_max_c >> 4;
    let x_min = x_min_c >> 4;
    assert(bx.x_min == x_min && bx.x_max == x_max && bx.y_min == y_min && bx.y_max == y_max);
    assert(0 <= x_min <= w && 0 <= x_max <= w && 0 <= y_min <= h && 0 <= y_max <= h);

    // add 0.5 (for pixel center)
    proof {
        lemma_shl4_i32(x_min);
        lemma_shl4_i32(y_min);
    }
    let start_pixel = vec2::<i32>((x_min << 4) + 8, (y_min << 4) + 8);
    let sp = vec2(start_pixel.x as i128, start_pixel.y as i128);
    assert(point(sp) == pixel_center(x_min as int, y_min as int));

    // calculate initial barycentric coordinates/subtriangle areas for each corner vertex
    proof {
        lemma_edge_i128(sp, b, v2v1_i);
        lemma_edge_i128(sp, c, v3v2_i);
        lemma_edge_i128(sp, a, v1v3_i);
        lemma_edge_bound(point(sp), point(b), e21);
        lemma_edge_bound(point(sp), point(c), e32);
        lemma_edge_bound(point(sp), point(a), e13);
    }
    let e1 = edge(sp, b, v2v1_i);
    let e2 = edge(sp, c, v3v2_i);
    let e3 = edge(sp, a, v1v3_i);
    proof {
        lemma_shr4_i128(e1);
        lemma_shr4_i128(e2);
        lemma_shr4_i128(e3);
    }
    let mut area1_initial = (e1 >> 4) - 1;
    let mut area2_initial = (e2 >> 4) - 1;
    let mut area3_initial = (e3 >> 4) - 1;

    // precompute the increase in barycentric coordinate values per
    // pixel moved down (y_step) and per pixel moved right (x_step)
    let area1_x_step = b.y - a.y;
    let area1_y_step = a.x - b.x;
    let area2_x_step = c.y - b.y;
    let area2_y_step = b.x - c.x;
    let area3_x_step = a.y - c.y;
    let area3_y_step = c.x - a.x;

    // set to true if the triangle edges are 'top' or 'left' edges, set to false otherwise
    let top_or_left_v3v2 = (v3v2_i.y == 0 && v3v2_i.x > 0) || v3v2_i.y < 0;
    let top_or_left_v2v1 = (v2v1_i.y == 0 && v2v1_i.x > 0) || v2v1_i.y < 0;
    let top_or_left_v1v3 = (v1v3_i.y == 0 && v1v3_i.x > 0) || v1v3_i.y < 0;
    let bias1: i128 = if top_or_left_v2v1 { 1 } else { 0 };
    let bias2: i128 = if top_or_left_v3v2 { 1 } else { 0 };
    let bias3: i128 = if top_or_left_v1v3 { 1 } else { 0 };

    // set to all 1s if triangle vertices are in ccw order and all 0s otherwise
    let is_ccw_mask: u32 = if area_tri > 0 { u32::MAX } else { 0 };
    proof {
        lemma_mask_u32(y_max as u32);
    }
    let row_end = (y_max as u32) & is_ccw_mask;

    let mut fragments: Vec<Fragment> = Vec::new();
    // and with 'is_ccw_mask' to ensure early return if triangle vertices aren't ccw
    let mut i: u32 = y_min as u32;
    while i < row_end
        invariant
            w == canvas_width,
            h == canvas_height,
            w < 0x800_0000,
            h < 0x800_0000,
            bx == pixel_box(v1_i, v2_i, v3_i, w, h),
            bx.x_min == x_min,
            bx.x_max == x_max,
            bx.y_min == y_min,
            bx.y_max == y_max,
            0 <= x_min <= w,
            0 <= x_max <= w,
            0 <= y_min <= h,
            0 <= y_max <= h,
            point(a) == fixed(v1_i),
            point(b) == fixed(v2_i),
            point(c) == fixed(v3_i),
            e32 == diff(fixed(v2_i), fixed(v3_i)),
            e21 == diff(fixed(v1_i), fixed(v2_i)),
            e13 == diff(fixed(v3_i), fixed(v1_i)),
            area1_x_step == -e21.1,
            area1_y_step == e21.0,
            area2_x_step == -e32.1,
            area2_y_step == e32.0,
            area3_x_step == -e13.1,
            area3_y_step == e13.0,
            bias1 == bias(top_or_left(e21)),
            bias2 == bias(top_or_left(e32)),
            bias3 == bias(top_or_left(e13)),
            area_tri == triangle_area(v1_i, v2_i, v3_i),
            row_end == (if area_tri > 0 { y_max as int } else { 0 }),
            y_min <= i,
            i <= row_end || i == y_min,
            area1_initial == edge_value(pixel_center(x_min as int, i as int), fixed(v2_i), e21) / 16 - 1,
            area2_initial == edge_value(pixel_center(x_min as int, i as int), fixed(v3_i), e32) / 16 - 1,
            area3_initial == edge_value(pixel_center(x_min as int, i as int), fixed(v1_i), e13) / 16 - 1,
            forall|n: int|
                0 <= n < fragments@.len() ==> #[trigger] fragment_of(v1_i, v2_i, v3_i, w, h, fragments@[n]),
            forall|n: int|
                0 <= n < fragments@.len() ==> (#[trigger] fragments@[n]).row < i,
            forall|n: int, m: int|
                0 <= n < m < fragments@.len() ==> row_major_before(
                    fragment_pos(#[trigger] fragments@[n]),
                    fragment_pos(#[trigger] fragments@[m]),
                ),
            forall|col: int, row: int|
                #[trigger] pixel_covered(v1_i, v2_i, v3_i, w, h, col, row) && row < i ==> exists|n: int|
                    0 <= n < fragments@.len() && fragment_pos(#[trigger] fragments@[n]) == (col, row),
        decreases row_end - i,
    {
        let mut area1 = area1_initial;
        let mut area2 = area2_initial;
        let mut area3 = area3_initial;

        let mut j: i32 = x_min;
        while j < x_max
            invariant
                w == canvas_width,
                h == canvas_height,
                w < 0x800_0000,
                h < 0x800_0000,
                bx == pixel_box(v1_i, v2_i, v3_i, w, h),
                bx.x_min == x_min,
                bx.x_max == x_max,
                bx.y_min == y_min,
                bx.y_max == y_max,
                0 <= x_min <= w,
                0 <= x_max <= w,
                0 <= y_min <= h,
                0 <= y_max <= h,
                point(a) == fixed(v1_i),
                point(b) == fixed(v2_i),
                point(c) == fixed(v3_i),
                e32 == diff(fixed(v2_i), fixed(v3_i)),
                e21 == diff(fixed(v1_i), fixed(v2_i)),
                e13 == diff(fixed(v3_i), fixed(v1_i)),
                area1_x_step == -e21.1,
                area2_x_step == -e32.1,
                area3_x_step == -e13.1,
                bias1 == bias(top_or_left(e21)),
                bias2 == bias(top_or_left(e32)),
                bias3 == bias(top_or_left(e13)),
                area_tri == triangle_area(v1_i, v2_i, v3_i),
                area_tri > 0,
                row_end == y_max,
                y_min <= i < row_end,
                x_min <= j,
                j <= x_max || j == x_min,
                area1 == edge_value(pixel_center(j as int, i as int), fixed(v2_i), e21) / 16 - 1,
                area2 == edge_value(pixel_center(j as int, i as int), fixed(v3_i), e32) / 16 - 1,
                area3 == edge_value(pixel_center(j as int, i as int), fixed(v1_i), e13) / 16 - 1,
                forall|n: int|
                    0 <= n < fragments@.len() ==> #[trigger] fragment_of(
                        v1_i,
                        v2_i,
                        v3_i,
                        w,
                        h,
                        fragments@[n],
                    ),
                forall|n: int|
                    0 <= n < fragments@.len() ==> row_major_before(
                        fragment_pos(#[trigger] fragments@[n]),
                        (j as int, i as int),
                    ),
                forall|n: int, m: int|
                    0 <= n < m < fragments@.len() ==> row_major_before(
                        fragment_pos(#[trigger] fragments@[n]),
                        fragment_pos(#[trigger] fragments@[m]),
                    ),
                forall|col: int, row: int|
                    #[trigger] pixel_covered(v1_i, v2_i, v3_i, w, h, col, row) && row_major_before(
                        (col, row),
                        (j as int, i as int),
                    ) ==> exists|n: int|
                        0 <= n < fragments@.len() && fragment_pos(#[trigger] fragments@[n]) == (
                            col,
                            row,
                        ),
            decreases x_max - j,
        {
            let ghost p = pixel_center(j as int, i as int);
            proof {
                lemma_edge_bound(p, fixed(v2_i), e21);
                lemma_edge_bound(p, fixed(v3_i), e32);
                lemma_edge_bound(p, fixed(v1_i), e13);
                lemma_edge_step(p, fixed(v2_i), e21);
                lemma_edge_step(p, fixed(v3_i), e32);
                lemma_edge_step(p, fixed(v1_i), e13);
                lemma_floor_shift(edge_value(p, fixed(v2_i), e21), -e21.1);
                lemma_floor_shift(edge_value(p, fixed(v3_i), e32), -e32.1);
                lemma_floor_shift(edge_value(p, fixed(v1_i), e13), -e13.1);
            }
            // add biases to areas to include top/left edge cases
            let biased1 = area1 + bias1;
            let biased2 = area2 + bias2;
            let biased3 = area3 + bias3;
            let ghost cv = coverage_values(v1_i, v2_i, v3_i, j as int, i as int);
            assert(cv == (biased1 as int, biased2 as int, biased3 as int));

            let ghost before_fragments = fragments@;
            if biased1 >= 0 && biased2 >= 0 && biased3 >= 0 {
                let ghost old_fragments = fragments@;
                let frag = Fragment {
                    col: j as usize,
                    row: i as usize,
                    area1: biased1,
                    area2: biased2,
                    area3: biased3,
                };
                assert(pixel_covered(v1_i, v2_i, v3_i, w, h, j as int, i as int));
                assert(fragment_of(v1_i, v2_i, v3_i, w, h, frag));
                fragments.push(frag);
                assert(fragments@ == old_fragments.push(frag));
            }
            assert forall|col: int, row: int|
                #[trigger] pixel_covered(v1_i, v2_i, v3_i, w, h, col, row) && row_major_before(
                    (col, row),
                    (j + 1, i as int),
                ) implies exists|n: int|
                0 <= n < fragments@.len() && fragment_pos(#[trigger] fragments@[n]) == (col, row) by {
                if row_major_before((col, row), (j as int, i as int)) {
                    let n = choose|n: int|
                        0 <= n < before_fragments.len() && fragment_pos(
                            #[trigger] before_fragments[n],
                        ) == (col, row);
                    assert(fragments@[n] == before_fragments[n]);
                } else {
                    assert(col == j && row == i);
                    assert(fragment_pos(fragments@[fragments@.len() - 1]) == (col, row));
                }
            }
            // move right by one pixel
            area1 += area1_x_step;
            area2 += area2_x_step;
            area3 += area3_x_step;
            j += 1;
        }

        // move down by one pixel
        proof {
            let p = pixel_center(x_min as int, i as int);
            lemma_edge_bound(p, fixed(v2_i), e21);
            lemma_edge_bound(p, fixed(v3_i), e32);
            lemma_edge_bound(p, fixed(v1_i), e13);
            lemma_edge_step(p, fixed(v2_i), e21);
            lemma_edge_step(p, fixed(v3_i), e32);
            lemma_edge_step(p, fixed(v1_i), e13);
            lemma_floor_shift(edge_value(p, fixed(v2_i), e21), e21.0);
            lemma_floor_shift(edge_value(p, fixed(v3_i), e32), e32.0);
            lemma_floor_shift(edge_value(p, fixed(v1_i), e13), e13.0);
        }
        area1_initial += area1_y_step;
        area2_initial += area2_y_step;
        area3_initial += area3_y_step;
        i += 1;
    }
    Coverage { area_tri, fragments }
}

} // verus!

verus! {

// ---------------------------------------------------------------------------
// Properties of triangle coverage.
// ---------------------------------------------------------------------------

/// Covered pixels lie on the canvas.
pub proof fn lemma_coverage_in_canvas(
    v1: Ivec2,
    v2: Ivec2,
    v3: Ivec2,
    width: int,
    height: int,
    col: int,
    row: int,
)
    requires
        0 <= width,
        0 <= height,
        pixel_covered(v1, v2, v3, width, height, col, row),
    ensures
        0 <= col < width,
        0 <= row < height,
{
}

/// Naming the vertices starting from another corner (same winding) describes the
/// same triangle: the same area and the same covered pixels, whose three tested
/// values are rotated along with the vertices.
pub proof fn lemma_coverage_rotation(
    v1: Ivec2,
    v2: Ivec2,
    v3: Ivec2,
    width: int,
    height: int,
    col: int,
    row: int,
)
    ensures
        triangle_area(v2, v3, v1) == triangle_area(v1, v2, v3),
        pixel_box(v2, v3, v1, width, height) == pixel_box(v1, v2, v3, width, height),
        ({
            let t = coverage_values(v1, v2, v3, col, row);
            coverage_values(v2, v3, v1, col, row) == (t.1, t.2, t.0)
        }),
        pixel_covered(v2, v3, v1, width, height, col, row) == pixel_covered(
            v1,
            v2,
            v3,
            width,
            height,
            col,
            row,
        ),
{
    let a = diff(fixed(v2), fixed(v3));
    let b = diff(fixed(v1), fixed(v2));
    let c = diff(fixed(v3), fixed(v1));
    assert(c.0 * a.1 - c.1 * a.0 == a.0 * b.1 - a.1 * b.0) by (nonlinear_arith)
        requires
            a.0 + b.0 + c.0 == 0,
            a.1 + b.1 + c.1 == 0,
    ;
}

/// A point lies strictly between the smallest and the largest of three values
/// when it is a positive-weighted average of them and they are not all equal.
proof fn lemma_strictly_between(x1: int, x2: int, x3: int, p: int, t1: int, t2: int, t3: int)
    requires
        t1 > 0,
        t2 > 0,
        t3 > 0,
        (t1 + t2 + t3) * p == t1 * x3 + t2 * x1 + t3 * x2,
        !(x1 == x2 && x2 == x3),
    ensures
        min3(x1, x2, x3) < p < max3(x1, x2, x3),
{
    let hi = max3(x1, x2, x3);
    let lo = min3(x1, x2, x3);
    let sum = t1 + t2 + t3;
    assert(t1 * x3 + t2 * x1 + t3 * x2 < sum * hi) by (nonlinear_arith)
        requires
            t1 > 0,
            t2 > 0,
            t3 > 0,
            sum == t1 + t2 + t3,
            x1 <= hi,
            x2 <= hi,
            x3 <= hi,
            x1 < hi || x2 < hi || x3 < hi,
    ;
    assert(t1 * x3 + t2 * x1 + t3 * x2 > sum * lo) by (nonlinear_arith)
        requires
            t1 > 0,
            t2 > 0,
            t3 > 0,
            sum == t1 + t2 + t3,
            x1 >= lo,
            x2 >= lo,
            x3 >= lo,
            x1 > lo || x2 > lo || x3 > lo,
    ;
    assert(p < hi) by (nonlinear_arith)
        requires
            sum > 0,
            sum * p < sum * hi,
    ;
    assert(p > lo) by (nonlinear_arith)
        requires
            sum > 0,
            sum * p > sum * lo,
    ;
}

/// The point `(px, py)` is the average of the vertices weighted by the edge
/// functions of the opposite edges.
proof fn lemma_barycentric(x1: int, y1: int, x2: int, y2: int, x3: int, y3: int, px: int, py: int)
    ensures
        ({
            let t1 = (py - y2) * (x1 - x2) - (px - x2) * (y1 - y2);
            let t2 = (py - y3) * (x2 - x3) - (px - x3) * (y2 - y3);
            let t3 = (py - y1) * (x3 - x1) - (px - x1) * (y3 - y1);
            &&& (t1 + t2 + t3) * px == t1 * x3 + t2 * x1 + t3 * x2
            &&& (t1 + t2 + t3) * py == t1 * y3 + t2 * y1 + t3 * y2
        }),
{
    let (a1, b1, a2, b2, a3, b3) = (x1 - px, y1 - py, x2 - px, y2 - py, x3 - px, y3 - py);
    let t1 = (py - y2) * (x1 - x2) - (px - x2) * (y1 - y2);
    let t2 = (py - y3) * (x2 - x3) - (px - x3) * (y2 - y3);
    let t3 = (py - y1) * (x3 - x1) - (px - x1) * (y3 - y1);
    assert(t1 == a2 * b1 - a1 * b2) by (nonlinear_arith)
        requires
            t1 == (py - y2) * (x1 - x2) - (px - x2) * (y1 - y2),
            a1 == x1 - px,
            b1 == y1 - py,
            a2 == x2 - px,
            b2 == y2 - py,
    ;
    assert(t2 == a3 * b2 - a2 * b3) by (nonlinear_arith)
        requires
            t2 == (py - y3) * (x2 - x3) - (px - x3) * (y2 - y3),
            a2 == x2 - px,
            b2 == y2 - py,
            a3 == x3 - px,
            b3 == y3 - py,
    ;
    assert(t3 == a1 * b3 - a3 * b1) by (nonlinear_arith)
        requires
            t3 == (py - y1) * (x3 - x1) - (px - x1) * (y3 - y1),
            a1 == x1 - px,
            b1 == y1 - py,
            a3 == x3 - px,
            b3 == y3 - py,
    ;
    assert(t1 * a3 + t2 * a1 + t3 * a2 == 0) by (nonlinear_arith)
        requires
            t1 == a2 * b1 - a1 * b2,
            t2 == a3 * b2 - a2 * b3,
            t3 == a1 * b3 - a3 * b1,
    ;
    assert(t1 * b3 + t2 * b1 + t3 * b2 == 0) by (nonlinear_arith)
        requires
            t1 == a2 * b1 - a1 * b2,
            t2 == a3 * b2 - a2 * b3,
            t3 == a1 * b3 - a3 * b1,
    ;
    lemma_weighted_shift(t1, t2, t3, a1, a2, a3, px);
    lemma_weighted_shift(t1, t2, t3, b1, b2, b3, py);
}

proof fn lemma_weighted_shift(t1: int, t2: int, t3: int, a1: int, a2: int, a3: int, p: int)
    by (nonlinear_arith)
    requires
        t1 * a3 + t2 * a1 + t3 * a2 == 0,
    ensures
        (t1 + t2 + t3) * p == t1 * (a3 + p) + t2 * (a1 + p) + t3 * (a2 + p),
{
}

/// Every canvas pixel whose center lies inside the triangle is covered, as long
/// as the center is not within a hair of an edge: each of the three edge
/// functions there (the cross product of the edge vector with the vector from
/// the edge's start to the center, in 28.4 fixed point) is at least 16. (The
/// tested values are the edge functions divided by 16, minus one, so a center
/// closer to an edge than that is covered only where the top-left rule adds
/// its bias.)
pub proof fn lemma_inner_pixels_covered(
    v1: Ivec2,
    v2: Ivec2,
    v3: Ivec2,
    width: int,
    height: int,
    col: int,
    row: int,
)
    requires
        0 <= col < width,
        0 <= row < height,
        ({
            let px = col * 16 + 8;
            let py = row * 16 + 8;
            &&& (py - v2.y) * (v1.x - v2.x) - (px - v2.x) * (v1.y - v2.y) >= 16
            &&& (py - v3.y) * (v2.x - v3.x) - (px - v3.x) * (v2.y - v3.y) >= 16
            &&& (py - v1.y) * (v3.x - v1.x) - (px - v1.x) * (v3.y - v1.y) >= 16
        }),
    ensures
        pixel_covered(v1, v2, v3, width, height, col, row),
{
    let px = col * 16 + 8;
    let py = row * 16 + 8;
    let (x1, y1, x2, y2, x3, y3) = (v1.x as int, v1.y as int, v2.x as int, v2.y as int, v3.x as int, v3.y as int);
    let t1 = (py - y2) * (x1 - x2) - (px - x2) * (y1 - y2);
    let t2 = (py - y3) * (x2 - x3) - (px - x3) * (y2 - y3);
    let t3 = (py - y1) * (x3 - x1) - (px - x1) * (y3 - y1);
    let sum = t1 + t2 + t3;
    let twice = (x2 - x3) * (y1 - y2) - (y2 - y3) * (x1 - x2);
    assert(sum == twice) by (nonlinear_arith)
        requires
            t1 == (py - y2) * (x1 - x2) - (px - x2) * (y1 - y2),
            t2 == (py - y3) * (x2 - x3) - (px - x3) * (y2 - y3),
            t3 == (py - y1) * (x3 - x1) - (px - x1) * (y3 - y1),
            sum == t1 + t2 + t3,
            twice == (x2 - x3) * (y1 - y2) - (y2 - y3) * (x1 - x2),
    ;
    lemma_barycentric(x1, y1, x2, y2, x3, y3, px, py);
    // a triangle whose vertices share a column or a row has no area
    if x1 == x2 && x2 == x3 {
        assert(twice == 0) by (nonlinear_arith)
            requires
                x1 == x2,
                x2 == x3,
                twice == (x2 - x3) * (y1 - y2) - (y2 - y3) * (x1 - x2),
        ;
    }
    if y1 == y2 && y2 == y3 {
        assert(twice == 0) by (nonlinear_arith)
            requires
                y1 == y2,
                y2 == y3,
                twice == (x2 - x3) * (y1 - y2) - (y2 - y3) * (x1 - x2),
        ;
    }
    lemma_strictly_between(x1, x2, x3, px, t1, t2, t3);
    lemma_strictly_between(y1, y2, y3, py, t1, t2, t3);
    // the triangle is counter-clockwise
    let v3v2 = diff(fixed(v2), fixed(v3));
    let v2v1 = diff(fixed(v1), fixed(v2));
    assert(v3v2.0 * v2v1.1 - v3v2.1 * v2v1.0 == twice);
    assert(triangle_area(v1, v2, v3) > 0);
    // the center lies in the searched box
    let bx = pixel_box(v1, v2, v3, width, height);
    assert(bx.x_min <= col < bx.x_max);
    assert(bx.y_min <= row < bx.y_max);
    // each tested value is at least 16 / 16 - 1
    let p = pixel_center(col, row);
    assert(edge_value(p, fixed(v2), v2v1) == t1);
    assert(edge_value(p, fixed(v3), v3v2) == t2);
    assert(edge_value(p, fixed(v1), diff(fixed(v3), fixed(v1))) == t3);
    lemma_div_is_ordered(16, t1, 16);
    lemma_div_is_ordered(16, t2, 16);
    lemma_div_is_ordered(16, t3, 16);
}

/// The pixels covered by a triangle include every canvas pixel whose center
/// lies inside it by the margin of `lemma_inner_pixels_covered`.
pub proof fn lemma_coverage_complete(
    v1: Ivec2,
    v2: Ivec2,
    v3: Ivec2,
    width: int,
    height: int,
    fragments: Seq<Fragment>,
    col: int,
    row: int,
)
    requires
        is_coverage(v1, v2, v3, width, height, fragments),
        0 <= col < width,
        0 <= row < height,
        ({
            let px = col * 16 + 8;
            let py = row * 16 + 8;
            &&& (py - v2.y) * (v1.x - v2.x) - (px - v2.x) * (v1.y - v2.y) >= 16
            &&& (py - v3.y) * (v2.x - v3.x) - (px - v3.x) * (v2.y - v3.y) >= 16
            &&& (py - v1.y) * (v3.x - v1.x) - (px - v1.x) * (v3.y - v1.y) >= 16
        }),
    ensures
        exists|n: int| 0 <= n < fragments.len() && #[trigger] fragment_pos(fragments[n]) == (col, row),
{
    lemma_inner_pixels_covered(v1, v2, v3, width, height, col, row);
    assert(pixel_covered(v1, v2, v3, width, height, col, row));
}

/// Two triangles that share the edge between `a` and `b`, walked in opposite
/// directions as in a consistently wound mesh, never both cover a pixel: a
/// pixel whose center lies on the shared edge goes only to the triangle for
/// which that edge is a top or left edge.
pub proof fn lemma_shared_edge_drawn_once(
    a: Ivec2,
    b: Ivec2,
    c: Ivec2,
    d: Ivec2,
    width: int,
    height: int,
    col: int,
    row: int,
)
    ensures
        !(pixel_covered(a, b, c, width, height, col, row) && pixel_covered(
            b,
            a,
            d,
            width,
            height,
            col,
            row,
        )),
{
    let p = pixel_center(col, row);
    let e = diff(fixed(a), fixed(b));
    let ne = diff(fixed(b), fixed(a));
    let x = edge_value(p, fixed(b), e);
    assert(edge_value(p, fixed(a), ne) == -x) by (nonlinear_arith)
        requires
            ne.0 == -e.0,
            ne.1 == -e.1,
            fixed(a).0 == fixed(b).0 + e.0,
            fixed(a).1 == fixed(b).1 + e.1,
            x == edge_value(p, fixed(b), e),
    ;
    if e.0 == 0 && e.1 == 0 {
        let v3v2 = diff(fixed(b), fixed(c));
        assert(v3v2.0 * e.1 - v3v2.1 * e.0 == 0) by (nonlinear_arith)
            requires
                e.0 == 0,
                e.1 == 0,
        ;
        assert(triangle_area(a, b, c) == 0);
    } else {
        assert(bias(top_or_left(e)) + bias(top_or_left(ne)) == 1);
        lemma_fundamental_div_mod(x, 16);
        lemma_mod_bound(x, 16);
        lemma_fundamental_div_mod(-x, 16);
        lemma_mod_bound(-x, 16);
        assert(x / 16 + (-x) / 16 <= 0);
    }
}

/// Fixed-point vertices within 2^13 of the origin (512 pixels) on a canvas whose
/// sides are at most 512 pixels keep the doubled triangle area, and the edge
/// functions at every pixel center up to one past the canvas, within 31 bits:
/// the coverage computation then needs no integers wider than 32 bits.
pub proof fn lemma_coverage_fits_i32(
    v1: Ivec2,
    v2: Ivec2,
    v3: Ivec2,
    width: int,
    height: int,
    col: int,
    row: int,
)
    requires
        bounded(v1.x as int, 0x2000),
        bounded(v1.y as int, 0x2000),
        bounded(v2.x as int, 0x2000),
        bounded(v2.y as int, 0x2000),
        bounded(v3.x as int, 0x2000),
        bounded(v3.y as int, 0x2000),
        0 <= col <= width <= 0x200,
        0 <= row <= height <= 0x200,
    ensures
        ({
            let v3v2 = diff(fixed(v2), fixed(v3));
            let v2v1 = diff(fixed(v1), fixed(v2));
            let v1v3 = diff(fixed(v3), fixed(v1));
            let p = pixel_center(col, row);
            &&& bounded(v3v2.0 * v2v1.1 - v3v2.1 * v2v1.0, 0x7fff_ffff)
            &&& bounded(edge_value(p, fixed(v2), v2v1), 0x7fff_ffff)
            &&& bounded(edge_value(p, fixed(v3), v3v2), 0x7fff_ffff)
            &&& bounded(edge_value(p, fixed(v1), v1v3), 0x7fff_ffff)
        }),
{
    let p = pixel_center(col, row);
    lemma_edge_small(p, fixed(v2), diff(fixed(v1), fixed(v2)));
    lemma_edge_small(p, fixed(v3), diff(fixed(v2), fixed(v3)));
    lemma_edge_small(p, fixed(v1), diff(fixed(v3), fixed(v1)));
    lemma_edge_small(fixed(v1), fixed(v2), diff(fixed(v2), fixed(v3)));
    assert(edge_value(fixed(v1), fixed(v2), diff(fixed(v2), fixed(v3))) == {
        let v3v2 = diff(fixed(v2), fixed(v3));
        let v2v1 = diff(fixed(v1), fixed(v2));
        v3v2.0 * v2v1.1 - v3v2.1 * v2v1.0
    }) by (nonlinear_arith);
}

proof fn lemma_edge_small(p: (int, int), a: (int, int), ab: (int, int))
    requires
        bounded(p.0, 0x2100),
        bounded(p.1, 0x2100),
        bounded(a.0, 0x2000),
        bounded(a.1, 0x2000),
        bounded(ab.0, 0x4000),
        bounded(ab.1, 0x4000),
    ensures
        bounded(edge_value(p, a, ab), 0x7fff_ffff),
{
    assert(bounded((p.1 - a.1) * ab.0, 0x1100_0000)) by (nonlinear_arith)
        requires
            bounded(p.1 - a.1, 0x4100),
            bounded(ab.0, 0x4000),
    ;
    assert(bounded((p.0 - a.0) * ab.1, 0x1100_0000)) by (nonlinear_arith)
        requires
            bounded(p.0 - a.0, 0x4100),
            bounded(ab.1, 0x4000),
    ;
}

/// Back-face culling: if a triangle covers any pixel, the same triangle with its
/// winding reversed covers none.
pub proof fn lemma_coverage_reversed(
    v1: Ivec2,
    v2: Ivec2,
    v3: Ivec2,
    width: int,
    height: int,
    col: int,
    row: int,
    col2: int,
    row2: int,
)
    requires
        pixel_covered(v1, v2, v3, width, height, col, row),
    ensures
        !pixel_covered(v1, v3, v2, width, height, col2, row2),
{
    let a = diff(fixed(v2), fixed(v3));
    let b = diff(fixed(v1), fixed(v2));
    let ra = diff(fixed(v3), fixed(v2));
    let rb = diff(fixed(v1), fixed(v3));
    let x = a.0 * b.1 - a.1 * b.0;
    assert(ra.0 * rb.1 - ra.1 * rb.0 == -x) by (nonlinear_arith)
        requires
            ra.0 == -a.0,
            ra.1 == -a.1,
            rb.0 == b.0 + a.0,
            rb.1 == b.1 + a.1,
            x == a.0 * b.1 - a.1 * b.0,
    ;
    assert(x / 16 > 0);
    lemma_fundamental_div_mod(x, 16);
    lemma_mod_bound(x, 16);
    lemma_fundamental_div_mod(-x, 16);
    lemma_mod_bound(-x, 16);
}

} // verus!
