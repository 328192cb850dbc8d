use tracker_sync::fixed::ONE;
use tracker_sync::pose::{convert, BaseFrameOffset, Quat, RawPose, Transform, Vec3};

const YAW_90: Quat = Quat { w: 46341, x: 0, y: 46341, z: 0 };
const PITCH_90: Quat = Quat { w: 46341, x: 46341, y: 0, z: 0 };

fn pose(position: Vec3, orientation: Quat) -> RawPose {
    RawPose { position, orientation, valid: true }
}

#[test]
fn identity_pose_under_identity_offset_is_identity() {
    let raw = pose(Vec3::zero(), Quat::identity());
    let t = convert(&raw, &BaseFrameOffset::identity());
    assert_eq!(t, Some(Transform::identity()));
    assert_eq!(
        Transform::identity(),
        Transform {
            position: Vec3 { x: 0, y: 0, z: 0 },
            orientation: Quat { w: 65536, x: 0, y: 0, z: 0 },
        }
    );
}

#[test]
fn yaw_under_identity_offset_is_the_same_yaw() {
    let raw = pose(Vec3::new(ONE, -2 * ONE, 3), YAW_90);
    let t = convert(&raw, &BaseFrameOffset::identity()).unwrap();
    assert_eq!(t.orientation, YAW_90);
    assert_eq!(t.position, Vec3 { x: 65536, y: -131072, z: 3 });
}

#[test]
fn identity_offset_is_lossless_for_unit_orientations() {
    let orientations = [
        Quat::identity(),
        YAW_90,
        PITCH_90,
        Quat { w: 32768, x: 32768, y: 32768, z: -32768 },
        Quat { w: -65536, x: 0, y: 0, z: 0 },
        Quat { w: 0, x: 0, y: 0, z: 65599 },
        Quat { w: 0, x: 65472, y: 0, z: 0 },
    ];
    let positions = [
        Vec3::zero(),
        Vec3::new(1, -1, 7),
        Vec3::new(i32::MAX, i32::MIN, 12345678),
    ];
    for q in orientations {
        assert!(q.is_unit());
        for p in positions {
            let t = convert(&pose(p, q), &BaseFrameOffset::identity());
            assert_eq!(t, Some(Transform { position: p, orientation: q }));
        }
    }
}

#[test]
fn identity_pose_lands_on_the_offset() {
    let base = BaseFrameOffset::new(Vec3::new(5, -6, 7 * ONE), YAW_90, 3 * ONE);
    let t = convert(&pose(Vec3::zero(), Quat::identity()), &base);
    assert_eq!(t, Some(Transform { position: base.position, orientation: YAW_90 }));
}

#[test]
fn offset_rotation_is_applied_after_the_device_rotation() {
    let base = BaseFrameOffset::new(Vec3::new(ONE, 2 * ONE, 3 * ONE), YAW_90, ONE);
    let raw = pose(Vec3::new(ONE, 0, 0), PITCH_90);
    let t = convert(&raw, &base).unwrap();
    // offset * device
    assert_eq!(t.orientation, Quat { w: 32768, x: 32768, y: 32768, z: -32768 });
    assert_eq!(t.orientation, YAW_90.compose(&PITCH_90));
    // and not device * offset
    assert_eq!(PITCH_90.compose(&YAW_90), Quat { w: 32768, x: 32768, y: 32768, z: 32768 });
    assert_ne!(t.orientation, PITCH_90.compose(&YAW_90));
    // the device position is turned by the offset and then moved by it
    assert_eq!(t.position, Vec3 { x: 65536, y: 131072, z: 131072 });
}

#[test]
fn unit_scale_is_applied_before_the_offset_rotation() {
    let base = BaseFrameOffset::new(Vec3::zero(), Quat::identity(), 2 * ONE);
    let raw = pose(Vec3::new(98304, -16384, 262144), Quat::identity());
    let t = convert(&raw, &base).unwrap();
    assert_eq!(t.position, Vec3 { x: 196608, y: -32768, z: 524288 });
    assert_eq!(t.orientation, Quat::identity());

    let base = BaseFrameOffset::new(Vec3::new(10 * ONE, 0, -ONE), YAW_90, ONE / 2);
    let raw = pose(Vec3::new(3 * ONE, ONE, -2 * ONE), Quat::identity());
    let t = convert(&raw, &base).unwrap();
    assert_eq!(t.position, Vec3 { x: 589824, y: 32768, z: -163840 });
    assert_eq!(t.orientation, YAW_90);
}

#[test]
fn invalid_pose_is_not_converted() {
    let raw = RawPose { position: Vec3::new(1, 2, 3), orientation: YAW_90, valid: false };
    assert_eq!(convert(&raw, &BaseFrameOffset::identity()), None);
    let base = BaseFrameOffset::new(Vec3::new(1, 1, 1), PITCH_90, ONE);
    assert_eq!(convert(&raw, &base), None);
}

#[test]
fn orientation_within_tolerance_is_kept_as_it_is() {
    let near = Quat { w: 65599, x: 0, y: 0, z: 0 };
    assert!(near.is_unit());
    assert_eq!(near.steadied(), near);
    let near = Quat { w: 65472, x: 0, y: 0, z: 0 };
    assert!(near.is_unit());
    assert_eq!(near.steadied(), near);
    let t = convert(&pose(Vec3::zero(), near), &BaseFrameOffset::identity()).unwrap();
    assert_eq!(t.orientation, near);
}

#[test]
fn drifted_orientation_is_renormalized() {
    let drifted = Quat { w: 65600, x: 0, y: 0, z: 0 };
    assert!(!drifted.is_unit());
    assert_eq!(drifted.steadied(), Quat::identity());
    let drifted = Quat { w: 65471, x: 0, y: 0, z: 0 };
    assert!(!drifted.is_unit());
    assert_eq!(drifted.steadied(), Quat::identity());
    let doubled = Quat { w: 2 * ONE, x: 0, y: 0, z: 0 };
    assert_eq!(doubled.steadied(), Quat::identity());
    let diagonal = Quat { w: ONE, x: ONE, y: 0, z: 0 };
    assert_eq!(diagonal.steadied(), PITCH_90);
    let t = convert(&pose(Vec3::zero(), diagonal), &BaseFrameOffset::identity()).unwrap();
    assert_eq!(t.orientation, PITCH_90);
}

#[test]
fn normalized_keeps_the_direction_of_short_quaternions() {
    assert_eq!(Quat::new(1, 1, 0, 0).normalized(), PITCH_90);
    assert_eq!(Quat::new(3000, 4000, 0, 0).normalized(), Quat { w: 39322, x: 52429, y: 0, z: 0 });
}

#[test]
fn zero_quaternion_becomes_the_identity() {
    let zero = Quat::new(0, 0, 0, 0);
    assert_eq!(zero.norm_sq(), 0);
    assert_eq!(zero.normalized(), Quat::identity());
    assert_eq!(zero.steadied(), Quat::identity());
    let t = convert(&pose(Vec3::new(4, 5, 6), zero), &BaseFrameOffset::identity());
    assert_eq!(t, Some(Transform { position: Vec3::new(4, 5, 6), orientation: Quat::identity() }));
}

#[test]
fn offset_orientation_is_steadied_when_configured() {
    let base = BaseFrameOffset::new(Vec3::zero(), Quat::new(2 * ONE, 0, 0, 0), ONE);
    assert_eq!(base.orientation, Quat::identity());
    assert_eq!(base, BaseFrameOffset::identity());
    let base = BaseFrameOffset::new(Vec3::new(1, 2, 3), YAW_90, 7);
    assert_eq!(base.orientation, YAW_90);
    assert_eq!(base.position, Vec3::new(1, 2, 3));
    assert_eq!(base.unit_scale, 7);
}

#[test]
fn compose_multiplies_quaternions() {
    let minus_one = Quat::new(-ONE, 0, 0, 0);
    let q = Quat::new(32768, -21846, 7, -9);
    assert_eq!(minus_one.compose(&q), Quat { w: -32768, x: 21846, y: -7, z: 9 });
    assert_eq!(Quat::identity().compose(&q), q);
    assert_eq!(q.compose(&Quat::identity()), q);
}

#[test]
fn rotate_turns_vectors() {
    assert_eq!(YAW_90.rotate(&Vec3::new(ONE, 0, 0)), Vec3 { x: 0, y: 0, z: -65536 });
    assert_eq!(YAW_90.rotate(&Vec3::new(0, 0, ONE)), Vec3 { x: 65536, y: 0, z: 0 });
    assert_eq!(Quat::identity().rotate(&Vec3::new(-3, 4, i32::MIN)), Vec3::new(-3, 4, i32::MIN));
}

#[test]
fn results_saturate_instead_of_wrapping() {
    let big = Vec3::new(i32::MAX, i32::MIN, 5);
    assert_eq!(big.plus(&Vec3::new(1, -1, -7)), Vec3 { x: i32::MAX, y: i32::MIN, z: -2 });
    assert_eq!(big.scaled(i32::MAX), Vec3 { x: i32::MAX, y: i32::MIN, z: 163840 });
    let huge = Quat::new(i32::MAX, i32::MAX, i32::MAX, i32::MAX);
    assert_eq!(
        huge.compose(&Quat::new(i32::MAX, 0, 0, 0)),
        Quat { w: i32::MAX, x: i32::MAX, y: i32::MAX, z: i32::MAX }
    );
    let low = Quat::new(i32::MIN, 0, 0, 0);
    assert_eq!(low.compose(&low), Quat { w: i32::MAX, x: 0, y: 0, z: 0 });
}

#[test]
fn normalized_quaternions_have_unit_length() {
    let samples = [
        Quat::new(1, 0, 0, 0),
        Quat::new(1, 1, 1, 1),
        Quat::new(-3, 4, 0, 12),
        Quat::new(70000, -5, 131072, 9),
        Quat::new(5000, 5000, -5000, 5000),
        Quat::new(i32::MAX, i32::MAX, i32::MAX, i32::MAX),
        Quat::new(i32::MIN, i32::MIN, i32::MIN, i32::MIN),
        Quat::new(i32::MIN, 0, i32::MAX, 1),
        Quat::new(0, 0, 0, -1),
        Quat::new(123456789, -987654321, 55555, -1),
    ];
    for q in samples {
        let n = q.normalized();
        assert!(n.is_unit());
        assert_eq!(n.steadied(), n);
        assert_eq!(q.steadied().steadied(), q.steadied());
    }
}
