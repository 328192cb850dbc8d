//! Poses and the pose converter.
//!
//! A raw pose is given in the pose source's frame; [`convert`] maps it to
//! scene space under a [`BaseFrameOffset`]. The composition order is fixed:
//! the device's rotation is applied first and the offset's rotation after it,
//! so the scene orientation is the Hamilton product `offset * device`, and
//! the scene position is the offset's position plus the device position,
//! scaled to scene units and rotated by the offset's rotation.

use vstd::prelude::*;
use crate::fixed::{
    div_round, div_round_spec, floor_sqrt, isqrt, saturate, saturated, wide_mul,
    ONE, ONE_SQ,
};

verus! {

/// How far the squared length of a quaternion may lie from [`ONE_SQ`] before
/// the converter renormalizes it: about a thousandth of the length.
pub const UNIT_TOLERANCE: i64 = 8388608;

/// Three scalars: a position or a displacement.
#[derive(Clone, Copy, Debug, PartialEq, Eq, Structural)]
pub struct Vec3 {
    pub x: i32,
    pub y: i32,
    pub z: i32,
}

/// A rotation as a quaternion `w + xi + yj + zk`.
#[derive(Clone, Copy, Debug, PartialEq, Eq, Structural)]
pub struct Quat {
    pub w: i32,
    pub x: i32,
    pub y: i32,
    pub z: i32,
}

/// One device's pose sample in the pose source's frame. A connected device
/// that is out of tracking range reports a sample that is not `valid`.
#[derive(Clone, Copy, Debug, PartialEq, Eq, Structural)]
pub struct RawPose {
    pub position: Vec3,
    pub orientation: Quat,
    pub valid: bool,
}

/// Position and orientation of a scene node. The scale of a node is fixed to
/// one and has no field.
#[derive(Clone, Copy, Debug, PartialEq, Eq, Structural)]
pub struct Transform {
    pub position: Vec3,
    pub orientation: Quat,
}

/// Where the pose source's origin sits in scene space, and how many scene
/// units one unit of the pose source is.
#[derive(Clone, Copy, Debug, PartialEq, Eq, Structural)]
pub struct BaseFrameOffset {
    pub position: Vec3,
    pub orientation: Quat,
    pub unit_scale: i32,
}

/// The product of a wide value and a scalar-sized one.
fn mul_wide(a: i128, b: i128) -> (p: i128)
    requires
        -0x8_0000_0000_0000_0000 <= a <= 0x8_0000_0000_0000_0000,
        -0x1_0000_0000 <= b <= 0x1_0000_0000,
    ensures
        p == a * b,
        -0x8_0000_0000_0000_0000_0000_0000 <= p <= 0x8_0000_0000_0000_0000_0000_0000,
{
    assert(-0x8_0000_0000_0000_0000_0000_0000 <= a * b <= 0x8_0000_0000_0000_0000_0000_0000)
        by (nonlinear_arith)
        requires
            -0x8_0000_0000_0000_0000 <= a <= 0x8_0000_0000_0000_0000,
            -0x1_0000_0000 <= b <= 0x1_0000_0000,
    ;
    a * b
}

impl Vec3 {
    pub open spec fn zero_spec() -> Vec3 {
        Vec3 { x: 0, y: 0, z: 0 }
    }

    /// Each component times the scalar `s`.
    pub open spec fn scaled_spec(self, s: i32) -> Vec3 {
        Vec3 {
            x: saturated(div_round_spec(self.x * s, ONE as int)),
            y: saturated(div_round_spec(self.y * s, ONE as int)),
            z: saturated(div_round_spec(self.z * s, ONE as int)),
        }
    }

    /// The componentwise sum, each component clamped to the scalar range.
    pub open spec fn plus_spec(self, other: Vec3) -> Vec3 {
        Vec3 {
            x: saturated(self.x + other.x),
            y: saturated(self.y + other.y),
            z: saturated(self.z + other.z),
        }
    }

    pub fn new(x: i32, y: i32, z: i32) -> (v: Vec3)
        ensures
            v == (Vec3 { x, y, z }),
    {
        Vec3 { x, y, z }
    }

    pub fn zero() -> (v: Vec3)
        ensures
            v == Vec3::zero_spec(),
    {
        Vec3 { x: 0, y: 0, z: 0 }
    }

    pub fn scaled(&self, s: i32) -> (v: Vec3)
        ensures
            v == self.scaled_spec(s),
    {
        Vec3 {
            x: saturate(div_round(wide_mul(self.x, s) as i128, ONE as i128)),
            y: saturate(div_round(wide_mul(self.y, s) as i128, ONE as i128)),
            z: saturate(div_round(wide_mul(self.z, s) as i128, ONE as i128)),
        }
    }

    pub fn plus(&self, other: &Vec3) -> (v: Vec3)
        ensures
            v == self.plus_spec(*other),
    {
        Vec3 {
            x: saturate(self.x as i128 + other.x as i128),
            y: saturate(self.y as i128 + other.y as i128),
            z: saturate(self.z as i128 + other.z as i128),
        }
    }
}

impl Quat {
    pub open spec fn identity_spec() -> Quat {
        Quat { w: ONE, x: 0, y: 0, z: 0 }
    }

    /// The squared length, at scale [`ONE_SQ`].
    pub open spec fn norm_sq_spec(self) -> int {
        self.w * self.w + self.x * self.x + self.y * self.y + self.z * self.z
    }

    /// The length is one, within [`UNIT_TOLERANCE`].
    pub open spec fn is_unit_spec(self) -> bool {
        ONE_SQ - UNIT_TOLERANCE <= self.norm_sq_spec() <= ONE_SQ + UNIT_TOLERANCE
    }

    /// The quaternion of length one that points the same way. The zero
    /// quaternion points nowhere and gives the identity.
    pub open spec fn normalized_spec(self) -> Quat {
        let n = self.norm_sq_spec();
        if n == 0 {
            Quat::identity_spec()
        } else {
            let r = floor_sqrt(n * ONE_SQ);
            Quat {
                w: saturated(div_round_spec(self.w * ONE_SQ, r)),
                x: saturated(div_round_spec(self.x * ONE_SQ, r)),
                y: saturated(div_round_spec(self.y * ONE_SQ, r)),
                z: saturated(div_round_spec(self.z * ONE_SQ, r)),
            }
        }
    }

    /// The quaternion itself where its length is one within the tolerance,
    /// else the normalized one.
    pub open spec fn steadied_spec(self) -> Quat {
        if self.is_unit_spec() {
            self
        } else {
            self.normalized_spec()
        }
    }

    /// The Hamilton product `self * rhs`: the rotation `rhs` followed by the
    /// rotation `self`.
    pub open spec fn compose_spec(self, rhs: Quat) -> Quat {
        Quat {
            w: saturated(
                div_round_spec(
                    self.w * rhs.w - self.x * rhs.x - self.y * rhs.y - self.z * rhs.z,
                    ONE as int,
                ),
            ),
            x: saturated(
                div_round_spec(
                    self.w * rhs.x + self.x * rhs.w + self.y * rhs.z - self.z * rhs.y,
                    ONE as int,
                ),
            ),
            y: saturated(
                div_round_spec(
                    self.w * rhs.y - self.x * rhs.z + self.y * rhs.w + self.z * rhs.x,
                    ONE as int,
                ),
            ),
            z: saturated(
                div_round_spec(
                    self.w * rhs.z + self.x * rhs.y - self.y * rhs.x + self.z * rhs.w,
                    ONE as int,
                ),
            ),
        }
    }

    /// `w^2 - (x^2 + y^2 + z^2)`, the weight of the vector itself in a
    /// rotation.
    pub open spec fn scalar_part(self) -> int {
        self.w * self.w - self.x * self.x - self.y * self.y - self.z * self.z
    }

    /// The inner product of the quaternion's axis with `v`.
    pub open spec fn axis_dot(self, v: Vec3) -> int {
        self.x * v.x + self.y * v.y + self.z * v.z
    }

    /// `v` rotated by the quaternion: `v (w^2 - u.u) + 2 u (u.v) + 2 w (u x v)`
    /// for the axis `u = (x, y, z)`, computed exactly and rounded once.
    pub open spec fn rotate_spec(self, v: Vec3) -> Vec3 {
        let s = self.scalar_part();
        let d = self.axis_dot(v);
        Vec3 {
            x: saturated(
                div_round_spec(
                    s * v.x + 2 * (d * self.x) + 2 * ((self.y * v.z - self.z * v.y) * self.w),
                    ONE_SQ as int,
                ),
            ),
            y: saturated(
                div_round_spec(
                    s * v.y + 2 * (d * self.y) + 2 * ((self.z * v.x - self.x * v.z) * self.w),
                    ONE_SQ as int,
                ),
            ),
            z: saturated(
                div_round_spec(
                    s * v.z + 2 * (d * self.z) + 2 * ((self.x * v.y - self.y * v.x) * self.w),
                    ONE_SQ as int,
                ),
            ),
        }
    }

    pub fn new(w: i32, x: i32, y: i32, z: i32) -> (q: Quat)
        ensures
            q == (Quat { w, x, y, z }),
    {
        Quat { w, x, y, z }
    }

    pub fn identity() -> (q: Quat)
        ensures
            q == Quat::identity_spec(),
    {
        Quat { w: ONE, x: 0, y: 0, z: 0 }
    }

    pub fn norm_sq(&self) -> (n: i128)
        ensures
            n == self.norm_sq_spec(),
            0 <= n <= 0x1_0000_0000_0000_0000,
    {
        let ww: i64 = wide_mul(self.w, self.w);
        let xx: i64 = wide_mul(self.x, self.x);
        let yy: i64 = wide_mul(self.y, self.y);
        let zz: i64 = wide_mul(self.z, self.z);
        assert(ww >= 0 && xx >= 0 && yy >= 0 && zz >= 0) by (nonlinear_arith)
            requires
                ww == self.w * self.w,
                xx == self.x * self.x,
                yy == self.y * self.y,
                zz == self.z * self.z,
        ;
        ww as i128 + xx as i128 + yy as i128 + zz as i128
    }

    pub fn is_unit(&self) -> (b: bool)
        ensures
            b == self.is_unit_spec(),
    {
        let n: i128 = self.norm_sq();
        ONE_SQ as i128 - UNIT_TOLERANCE as i128 <= n && n <= ONE_SQ as i128 + UNIT_TOLERANCE as i128
    }

    pub fn normalized(&self) -> (q: Quat)
        ensures
            q == self.normalized_spec(),
    {
        let n: i128 = self.norm_sq();
        if n == 0 {
            Quat::identity()
        } else {
            let m: u128 = (n * (ONE_SQ as i128)) as u128;
            let root: u128 = isqrt(m);
            proof {
                let ri = root as int;
                assert(ri >= 1) by (nonlinear_arith)
                    requires
                        0 <= ri,
                        (ri + 1) * (ri + 1) > m,
                        m >= 1,
                ;
                assert(ri <= 0x1_0000_0000_0000) by (nonlinear_arith)
                    requires
                        0 <= ri,
                        ri * ri <= m,
                        m <= 0x1_0000_0000_0000_0000_0000_0000,
                ;
            }
            let r: i128 = root as i128;
            Quat {
                w: saturate(div_round(self.w as i128 * (ONE_SQ as i128), r)),
                x: saturate(div_round(self.x as i128 * (ONE_SQ as i128), r)),
                y: saturate(div_round(self.y as i128 * (ONE_SQ as i128), r)),
                z: saturate(div_round(self.z as i128 * (ONE_SQ as i128), r)),
            }
        }
    }

    pub fn steadied(&self) -> (q: Quat)
        ensures
            q == self.steadied_spec(),
    {
        if self.is_unit() {
            *self
        } else {
            self.normalized()
        }
    }

    pub fn compose(&self, rhs: &Quat) -> (q: Quat)
        ensures
            q == self.compose_spec(*rhs),
    {
        let w: i128 = wide_mul(self.w, rhs.w) as i128 - wide_mul(self.x, rhs.x) as i128 - wide_mul(
            self.y,
            rhs.y,
        ) as i128 - wide_mul(self.z, rhs.z) as i128;
        let x: i128 = wide_mul(self.w, rhs.x) as i128 + wide_mul(self.x, rhs.w) as i128 + wide_mul(
            self.y,
            rhs.z,
        ) as i128 - wide_mul(self.z, rhs.y) as i128;
        let y: i128 = wide_mul(self.w, rhs.y) as i128 - wide_mul(self.x, rhs.z) as i128 + wide_mul(
            self.y,
            rhs.w,
        ) as i128 + wide_mul(self.z, rhs.x) as i128;
        let z: i128 = wide_mul(self.w, rhs.z) as i128 + wide_mul(self.x, rhs.y) as i128 - wide_mul(
            self.y,
            rhs.x,
        ) as i128 + wide_mul(self.z, rhs.w) as i128;
        Quat {
            w: saturate(div_round(w, ONE as i128)),
            x: saturate(div_round(x, ONE as i128)),
            y: saturate(div_round(y, ONE as i128)),
            z: saturate(div_round(z, ONE as i128)),
        }
    }

    pub fn rotate(&self, v: &Vec3) -> (r: Vec3)
        ensures
            r == self.rotate_spec(*v),
    {
        let s: i128 = wide_mul(self.w, self.w) as i128 - wide_mul(self.x, self.x) as i128
            - wide_mul(self.y, self.y) as i128 - wide_mul(self.z, self.z) as i128;
        let d: i128 = wide_mul(self.x, v.x) as i128 + wide_mul(self.y, v.y) as i128 + wide_mul(
            self.z,
            v.z,
        ) as i128;
        let cx: i128 = wide_mul(self.y, v.z) as i128 - wide_mul(self.z, v.y) as i128;
        let cy: i128 = wide_mul(self.z, v.x) as i128 - wide_mul(self.x, v.z) as i128;
        let cz: i128 = wide_mul(self.x, v.y) as i128 - wide_mul(self.y, v.x) as i128;
        let w: i128 = self.w as i128;
        let nx: i128 = mul_wide(s, v.x as i128) + 2 * mul_wide(d, self.x as i128) + 2 * mul_wide(
            cx,
            w,
        );
        let ny: i128 = mul_wide(s, v.y as i128) + 2 * mul_wide(d, self.y as i128) + 2 * mul_wide(
            cy,
            w,
        );
        let nz: i128 = mul_wide(s, v.z as i128) + 2 * mul_wide(d, self.z as i128) + 2 * mul_wide(
            cz,
            w,
        );
        Vec3 {
            x: saturate(div_round(nx, ONE_SQ as i128)),
            y: saturate(div_round(ny, ONE_SQ as i128)),
            z: saturate(div_round(nz, ONE_SQ as i128)),
        }
    }
}

impl Transform {
    pub open spec fn identity_spec() -> Transform {
        Transform { position: Vec3::zero_spec(), orientation: Quat::identity_spec() }
    }

    pub fn identity() -> (t: Transform)
        ensures
            t == Transform::identity_spec(),
    {
        Transform { position: Vec3::zero(), orientation: Quat::identity() }
    }
}

impl BaseFrameOffset {
    /// The offset that changes nothing: both origins coincide and the units
    /// are the same.
    pub open spec fn identity_spec() -> BaseFrameOffset {
        BaseFrameOffset {
            position: Vec3::zero_spec(),
            orientation: Quat::identity_spec(),
            unit_scale: ONE,
        }
    }

    pub fn identity() -> (b: BaseFrameOffset)
        ensures
            b == BaseFrameOffset::identity_spec(),
    {
        BaseFrameOffset { position: Vec3::zero(), orientation: Quat::identity(), unit_scale: ONE }
    }

    /// An offset from configured values. The orientation is steadied once
    /// here; the converter takes it as it stands.
    pub fn new(position: Vec3, orientation: Quat, unit_scale: i32) -> (b: BaseFrameOffset)
        ensures
            b == (BaseFrameOffset {
                position,
                orientation: orientation.steadied_spec(),
                unit_scale,
            }),
    {
        BaseFrameOffset { position, orientation: orientation.steadied(), unit_scale }
    }
}

/// The scene-space transform of a raw pose, and `None` for a pose that is not
/// valid.
pub open spec fn convert_spec(raw: RawPose, base: BaseFrameOffset) -> Option<Transform> {
    if raw.valid {
        Some(
            Transform {
                position: base.position.plus_spec(
                    base.orientation.rotate_spec(raw.position.scaled_spec(base.unit_scale)),
                ),
                orientation: base.orientation.compose_spec(raw.orientation.steadied_spec()),
            },
        )
    } else {
        None
    }
}

/// Converts a raw pose to scene space. A pose that is not valid is not
/// converted.
pub fn convert(raw: &RawPose, base: &BaseFrameOffset) -> (t: Option<Transform>)
    ensures
        t == convert_spec(*raw, *base),
{
    if raw.valid {
        let local: Vec3 = raw.position.scaled(base.unit_scale);
        let turned: Vec3 = base.orientation.rotate(&local);
        let steady: Quat = raw.orientation.steadied();
        Some(
            Transform {
                position: base.position.plus(&turned),
                orientation: base.orientation.compose(&steady),
            },
        )
    } else {
        None
    }
}

} // verus!
