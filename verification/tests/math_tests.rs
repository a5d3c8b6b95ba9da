use rasterizer::math::{clamp_i, ivec2, lvec2, vec2, vec3, vec4, vec4_from_3, Vec2, Vec3, Vec4};
use rasterizer::pixel::pixel_rgba;
use rasterizer::Vertex;

#[test]
fn constructors_set_components() {
    let a = vec2(1, 2);
    assert_eq!((a.x, a.y), (1, 2));
    let b = vec3(1.5f32, 2.5, 3.5);
    assert_eq!((b.x, b.y, b.z), (1.5, 2.5, 3.5));
    let c = vec4(1u8, 2, 3, 4);
    assert_eq!((c.x, c.y, c.z, c.w), (1, 2, 3, 4));
    let d = vec4_from_3(vec3(7, 8, 9), 10);
    assert_eq!((d.x, d.y, d.z, d.w), (7, 8, 9, 10));
    let e = ivec2(-3, 4);
    assert_eq!((e.x, e.y), (-3, 4));
    let f = lvec2(1 << 40, -(1 << 40));
    assert_eq!((f.x, f.y), (1 << 40, -(1 << 40)));
}

#[test]
fn clamp_i_cases() {
    assert_eq!(clamp_i(0, 10, 5), 5);
    assert_eq!(clamp_i(0, 10, -5), 0);
    assert_eq!(clamp_i(0, 10, 15), 10);
    assert_eq!(clamp_i(0, 10, 0), 0);
    assert_eq!(clamp_i(0, 10, 10), 10);
    // an empty range yields the lower bound
    assert_eq!(clamp_i(10, 0, 5), 10);
    assert_eq!(clamp_i(i32::MIN, i32::MAX, 123), 123);
}

#[test]
fn vec4_operators() {
    let a = vec4(1, 2, 3, 4);
    let b = vec4(10, 20, 30, 40);
    let s = a + b;
    assert_eq!((s.x, s.y, s.z, s.w), (11, 22, 33, 44));
    let d = b - a;
    assert_eq!((d.x, d.y, d.z, d.w), (9, 18, 27, 36));
    let q = b / 10;
    assert_eq!((q.x, q.y, q.z, q.w), (1, 2, 3, 4));
    let t = vec4(-7, 7, -8, 8) / 2;
    assert_eq!((t.x, t.y, t.z, t.w), (-3, 3, -4, 4));
    let f = vec4(1.0f32, 2.0, 3.0, 4.0) / 2.0;
    assert_eq!((f.x, f.y, f.z, f.w), (0.5, 1.0, 1.5, 2.0));
}

#[test]
fn vec3_operators() {
    let a = vec3(1, 2, 3);
    let b = vec3(4, 6, 8);
    let s = a + b;
    assert_eq!((s.x, s.y, s.z), (5, 8, 11));
    let d = a - b;
    assert_eq!((d.x, d.y, d.z), (-3, -4, -5));
    let m = a * 3;
    assert_eq!((m.x, m.y, m.z), (3, 6, 9));
}

#[test]
fn vec2_operators_and_conversion() {
    let d = vec2(5, 1) - vec2(2, 4);
    assert_eq!((d.x, d.y), (3, -3));
    let m = vec2(5i64, -1) * 16;
    assert_eq!((m.x, m.y), (80, -16));
    let p: Vec2<i32> = Vec2::from(vec3(1, 2, 3));
    assert_eq!((p.x, p.y), (1, 2));
}

#[test]
fn defaults_are_zero() {
    let a: Vec2<i32> = Default::default();
    let b: Vec3<i32> = Default::default();
    let c: Vec4<i32> = Default::default();
    assert_eq!((a.x, a.y, b.x, b.y, b.z, c.x, c.y, c.z, c.w), (0, 0, 0, 0, 0, 0, 0, 0, 0));
}

#[test]
fn vertex_constructors() {
    let v = Vertex::new(vec3(1.0f32, 2.0, 3.0), vec4(0.5, 0.25, 0.125, 1.0));
    assert_eq!((v.pos.x, v.pos.y, v.pos.z), (1.0, 2.0, 3.0));
    assert_eq!((v.color.x, v.color.y, v.color.z, v.color.w), (0.5, 0.25, 0.125, 1.0));
    let b: Vertex<f32> = Vertex::new_black(vec3(-1.0, 0.0, 1.0));
    assert_eq!((b.pos.x, b.pos.y, b.pos.z), (-1.0, 0.0, 1.0));
    assert_eq!((b.color.x, b.color.y, b.color.z, b.color.w), (0.0, 0.0, 0.0, 1.0));
    let i: Vertex<i32> = Vertex::new_black(vec3(1, 2, 3));
    assert_eq!((i.color.x, i.color.y, i.color.z, i.color.w), (0, 0, 0, 1));
}

#[test]
fn pixel_bytes_in_memory_order() {
    let p = pixel_rgba(1, 2, 3, 4);
    assert_eq!(p.to_ne_bytes(), [1, 2, 3, 4]);
    assert_eq!(p, u32::from_ne_bytes([1, 2, 3, 4]));
    assert_ne!(pixel_rgba(0, 0, 0, 255), 0);
    assert_eq!(pixel_rgba(0, 0, 0, 255).to_ne_bytes(), [0, 0, 0, 255]);
}
