use vstd::prelude::*;
use vstd::std_specs::ops::{AddSpec, DivSpec, MulSpec, SubSpec};

verus! {

/// A two-component vector.
#[derive(Debug, Copy, Clone, Default)]
pub struct Vec2<T> {
    pub x: T,
    pub y: T,
}

/// A three-component vector.
#[derive(Debug, Copy, Clone, Default)]
pub struct Vec3<T> {
    pub x: T,
    pub y: T,
    pub z: T,
}

/// A four-component vector.
#[derive(Debug, Copy, Clone, Default)]
pub struct Vec4<T> {
    pub x: T,
    pub y: T,
    pub z: T,
    pub w: T,
}

/// Two-component vector of 32-bit integers (raster positions).
pub type Ivec2 = Vec2<i32>;

/// Two-component vector of 64-bit integers.
pub type Lvec2 = Vec2<i64>;

pub fn vec2<T>(x: T, y: T) -> (r: Vec2<T>)
    ensures
        r.x == x,
        r.y == y,
{
    Vec2 { x, y }
}

pub fn ivec2(x: i32, y: i32) -> (r: Ivec2)
    ensures
        r.x == x,
        r.y == y,
{
    Vec2 { x, y }
}

pub fn lvec2(x: i64, y: i64) -> (r: Lvec2)
    ensures
        r.x == x,
        r.y == y,
{
    Vec2 { x, y }
}

pub fn vec3<T>(x: T, y: T, z: T) -> (r: Vec3<T>)
    ensures
        r.x == x,
        r.y == y,
        r.z == z,
{
    Vec3 { x, y, z }
}

pub fn vec4<T>(x: T, y: T, z: T, w: T) -> (r: Vec4<T>)
    ensures
        r.x == x,
        r.y == y,
        r.z == z,
        r.w == w,
{
    Vec4 { x, y, z, w }
}

/// Extends a three-component vector with a fourth component `w`.
pub fn vec4_from_3<T>(vec3: Vec3<T>, w: T) -> (r: Vec4<T>)
    ensures
        r.x == vec3.x,
        r.y == vec3.y,
        r.z == vec3.z,
        r.w == w,
{
    Vec4 { x: vec3.x, y: vec3.y, z: vec3.z, w }
}

/// `max(min, min(val, max))`: `val` clamped to `[min, max]`; where `min > max` the
/// result is `min`.
pub open spec fn spec_clamp(min: int, max: int, val: int) -> int {
    let upper = if val <= max { val } else { max };
    if min >= upper { min } else { upper }
}

pub fn clamp_i(min: i32, max: i32, val: i32) -> (r: i32)
    ensures
        r == spec_clamp(min as int, max as int, val as int),
{
    let upper = if val <= max { val } else { max };
    if min >= upper { min } else { upper }
}

} // verus!

verus! {

// ---------------------------------------------------------------------------
// Component-wise arithmetic. Each operator is specified by the operator of the
// component type applied to every component.
// ---------------------------------------------------------------------------

impl<T: core::ops::Add<Output = T>> core::ops::Add for Vec4<T> {
    type Output = Self;

    fn add(self, rhs: Vec4<T>) -> (r: Self::Output) {
        vec4(self.x + rhs.x, self.y + rhs.y, self.z + rhs.z, self.w + rhs.w)
    }
}

impl<T: core::ops::Add<Output = T>> vstd::std_specs::ops::AddSpecImpl for Vec4<T> {
    open spec fn obeys_add_spec() -> bool {
        T::obeys_add_spec()
    }

    open spec fn add_req(self, rhs: Vec4<T>) -> bool {
        &&& self.x.add_req(rhs.x)
        &&& self.y.add_req(rhs.y)
        &&& self.z.add_req(rhs.z)
        &&& self.w.add_req(rhs.w)
    }

    open spec fn add_spec(self, rhs: Vec4<T>) -> Vec4<T> {
        Vec4 {
            x: self.x.add_spec(rhs.x),
            y: self.y.add_spec(rhs.y),
            z: self.z.add_spec(rhs.z),
            w: self.w.add_spec(rhs.w),
        }
    }
}

impl<T: core::ops::Sub<Output = T>> core::ops::Sub for Vec4<T> {
    type Output = Self;

    fn sub(self, rhs: Vec4<T>) -> (r: Self::Output) {
        vec4(self.x - rhs.x, self.y - rhs.y, self.z - rhs.z, self.w - rhs.w)
    }
}

impl<T: core::ops::Sub<Output = T>> vstd::std_specs::ops::SubSpecImpl for Vec4<T> {
    open spec fn obeys_sub_spec() -> bool {
        T::obeys_sub_spec()
    }

    open spec fn sub_req(self, rhs: Vec4<T>) -> bool {
        &&& self.x.sub_req(rhs.x)
        &&& self.y.sub_req(rhs.y)
        &&& self.z.sub_req(rhs.z)
        &&& self.w.sub_req(rhs.w)
    }

    open spec fn sub_spec(self, rhs: Vec4<T>) -> Vec4<T> {
        Vec4 {
            x: self.x.sub_spec(rhs.x),
            y: self.y.sub_spec(rhs.y),
            z: self.z.sub_spec(rhs.z),
            w: self.w.sub_spec(rhs.w),
        }
    }
}

impl<T: core::ops::Div<Output = T> + Copy> core::ops::Div<T> for Vec4<T> {
    type Output = Self;

    fn div(self, rhs: T) -> (r: Self) {
        vec4(self.x / rhs, self.y / rhs, self.z / rhs, self.w / rhs)
    }
}

impl<T: core::ops::Div<Output = T> + Copy> vstd::std_specs::ops::DivSpecImpl<T> for Vec4<T> {
    open spec fn obeys_div_spec() -> bool {
        T::obeys_div_spec()
    }

    open spec fn div_req(self, rhs: T) -> bool {
        &&& self.x.div_req(rhs)
        &&& self.y.div_req(rhs)
        &&& self.z.div_req(rhs)
        &&& self.w.div_req(rhs)
    }

    open spec fn div_spec(self, rhs: T) -> Vec4<T> {
        Vec4 {
            x: self.x.div_spec(rhs),
            y: self.y.div_spec(rhs),
            z: self.z.div_spec(rhs),
            w: self.w.div_spec(rhs),
        }
    }
}

impl<T: core::ops::Add<Output = T>> core::ops::Add for Vec3<T> {
    type Output = Self;

    fn add(self, rhs: Vec3<T>) -> (r: Self) {
        vec3(self.x + rhs.x, self.y + rhs.y, self.z + rhs.z)
    }
}

impl<T: core::ops::Add<Output = T>> vstd::std_specs::ops::AddSpecImpl for Vec3<T> {
    open spec fn obeys_add_spec() -> bool {
        T::obeys_add_spec()
    }

    open spec fn add_req(self, rhs: Vec3<T>) -> bool {
        &&& self.x.add_req(rhs.x)
        &&& self.y.add_req(rhs.y)
        &&& self.z.add_req(rhs.z)
    }

    open spec fn add_spec(self, rhs: Vec3<T>) -> Vec3<T> {
        Vec3 { x: self.x.add_spec(rhs.x), y: self.y.add_spec(rhs.y), z: self.z.add_spec(rhs.z) }
    }
}

impl<T: core::ops::Sub<Output = T>> core::ops::Sub for Vec3<T> {
    type Output = Self;

    fn sub(self, rhs: Vec3<T>) -> (r: Self) {
        vec3(self.x - rhs.x, self.y - rhs.y, self.z - rhs.z)
    }
}

impl<T: core::ops::Sub<Output = T>> vstd::std_specs::ops::SubSpecImpl for Vec3<T> {
    open spec fn obeys_sub_spec() -> bool {
        T::obeys_sub_spec()
    }

    open spec fn sub_req(self, rhs: Vec3<T>) -> bool {
        &&& self.x.sub_req(rhs.x)
        &&& self.y.sub_req(rhs.y)
        &&& self.z.sub_req(rhs.z)
    }

    open spec fn sub_spec(self, rhs: Vec3<T>) -> Vec3<T> {
        Vec3 { x: self.x.sub_spec(rhs.x), y: self.y.sub_spec(rhs.y), z: self.z.sub_spec(rhs.z) }
    }
}

impl<T: core::ops::Mul<Output = T> + Copy> core::ops::Mul<T> for Vec3<T> {
    type Output = Self;

    fn mul(self, rhs: T) -> (r: Self) {
        vec3(self.x * rhs, self.y * rhs, self.z * rhs)
    }
}

impl<T: core::ops::Mul<Output = T> + Copy> vstd::std_specs::ops::MulSpecImpl<T> for Vec3<T> {
    open spec fn obeys_mul_spec() -> bool {
        T::obeys_mul_spec()
    }

    open spec fn mul_req(self, rhs: T) -> bool {
        &&& self.x.mul_req(rhs)
        &&& self.y.mul_req(rhs)
        &&& self.z.mul_req(rhs)
    }

    open spec fn mul_spec(self, rhs: T) -> Vec3<T> {
        Vec3 { x: self.x.mul_spec(rhs), y: self.y.mul_spec(rhs), z: self.z.mul_spec(rhs) }
    }
}

impl<T: core::ops::Sub<Output = T>> core::ops::Sub for Vec2<T> {
    type Output = Self;

    fn sub(self, rhs: Vec2<T>) -> (r: Self) {
        vec2(self.x - rhs.x, self.y - rhs.y)
    }
}

impl<T: core::ops::Sub<Output = T>> vstd::std_specs::ops::SubSpecImpl for Vec2<T> {
    open spec fn obeys_sub_spec() -> bool {
        T::obeys_sub_spec()
    }

    open spec fn sub_req(self, rhs: Vec2<T>) -> bool {
        self.x.sub_req(rhs.x) && self.y.sub_req(rhs.y)
    }

    open spec fn sub_spec(self, rhs: Vec2<T>) -> Vec2<T> {
        Vec2 { x: self.x.sub_spec(rhs.x), y: self.y.sub_spec(rhs.y) }
    }
}

impl<T: core::ops::Mul<Output = T> + Copy> core::ops::Mul<T> for Vec2<T> {
    type Output = Self;

    fn mul(self, rhs: T) -> (r: Self) {
        vec2(self.x * rhs, self.y * rhs)
    }
}

impl<T: core::ops::Mul<Output = T> + Copy> vstd::std_specs::ops::MulSpecImpl<T> for Vec2<T> {
    open spec fn obeys_mul_spec() -> bool {
        T::obeys_mul_spec()
    }

    open spec fn mul_req(self, rhs: T) -> bool {
        self.x.mul_req(rhs) && self.y.mul_req(rhs)
    }

    open spec fn mul_spec(self, rhs: T) -> Vec2<T> {
        Vec2 { x: self.x.mul_spec(rhs), y: self.y.mul_spec(rhs) }
    }
}

/// The first two components of a three-component vector.
impl<T> From<Vec3<T>> for Vec2<T> {
    fn from(f: Vec3<T>) -> (r: Self) {
        vec2(f.x, f.y)
    }
}

impl<T> vstd::std_specs::convert::FromSpecImpl<Vec3<T>> for Vec2<T> {
    open spec fn obeys_from_spec() -> bool {
        true
    }

    open spec fn from_spec(f: Vec3<T>) -> Vec2<T> {
        Vec2 { x: f.x, y: f.y }
    }
}

} // verus!
