use tracker_sync::device::{DeviceId, DeviceRole, DeviceSample, Snapshot};
use tracker_sync::fixed::ONE;
use tracker_sync::pose::{convert, BaseFrameOffset, Quat, RawPose, Transform, Vec3};
use tracker_sync::registry::DeviceState;
use tracker_sync::scene::{Node, NodeHandle, NodeOwner, SceneGraph};
use tracker_sync::sync::{FrameReport, SyncError, TrackerSync};

const A: DeviceId = DeviceId(1);
const B: DeviceId = DeviceId(2);
const C: DeviceId = DeviceId(3);
const YAW_90: Quat = Quat { w: 46341, x: 0, y: 46341, z: 0 };

fn valid(x: i32, y: i32, z: i32) -> RawPose {
    RawPose { position: Vec3::new(x, y, z), orientation: YAW_90, valid: true }
}

fn invalid() -> RawPose {
    RawPose { position: Vec3::new(-1, -1, -1), orientation: Quat::new(0, 0, 0, 0), valid: false }
}

fn frame(samples: &[(DeviceId, RawPose)]) -> Snapshot {
    let mut snapshot = Snapshot::new();
    for (id, pose) in samples {
        assert!(snapshot.record(DeviceSample { id: *id, role: DeviceRole::GenericTracker, pose: *pose }));
    }
    snapshot
}

fn none() -> Vec<DeviceId> {
    Vec::new()
}

fn tracked_nodes(scene: &SceneGraph) -> usize {
    let mut n = 0;
    for i in 0..scene.capacity() {
        if scene.is_tracked(NodeHandle(i)) {
            n += 1;
        }
    }
    n
}

fn assert_in_sync(sync: &TrackerSync, scene: &SceneGraph) {
    assert_eq!(sync.audit(scene), Ok(()));
    assert!(sync.registry().is_well_formed());
    assert_eq!(tracked_nodes(scene), sync.registry().len());
    for i in 0..sync.registry().len() {
        let e = sync.registry().get(i).unwrap();
        assert!(scene.is_tracked(e.node));
        assert_eq!(sync.registry().owner(e.node), Some(e));
        assert_eq!(sync.registry().lookup(e.id), Some(e.node));
    }
}

fn events(report: &FrameReport, names: &[(DeviceId, &str)], log: &mut Vec<String>) {
    let name = |id: &DeviceId| names.iter().find(|(d, _)| d == id).unwrap().1;
    for id in &report.spawned {
        log.push(format!("spawn {}", name(id)));
    }
    for id in &report.despawned {
        log.push(format!("despawn {}", name(id)));
    }
}

#[test]
fn devices_spawn_and_despawn_in_order() {
    let names = [(A, "A"), (B, "B")];
    let base = BaseFrameOffset::identity();
    let mut scene = SceneGraph::new(4);
    let mut sync = TrackerSync::new();
    let mut log: Vec<String> = Vec::new();

    let report = sync.step(&mut scene, Some(&frame(&[])), &base);
    events(&report, &names, &mut log);
    assert_in_sync(&sync, &scene);

    let report = sync.step(&mut scene, Some(&frame(&[(A, valid(1, 0, 0))])), &base);
    events(&report, &names, &mut log);
    assert_in_sync(&sync, &scene);

    let report = sync.step(
        &mut scene,
        Some(&frame(&[(A, valid(1, 0, 0)), (B, valid(2, 0, 0))])),
        &base,
    );
    events(&report, &names, &mut log);
    assert_in_sync(&sync, &scene);
    let node_b = sync.registry().lookup(B);
    assert!(node_b.is_some());

    let report = sync.step(&mut scene, Some(&frame(&[(B, valid(2, 0, 0))])), &base);
    events(&report, &names, &mut log);
    assert_in_sync(&sync, &scene);
    assert_eq!(sync.registry().lookup(B), node_b);
    assert_eq!(sync.registry().lookup(A), None);

    let report = sync.step(&mut scene, Some(&frame(&[])), &base);
    events(&report, &names, &mut log);
    assert_in_sync(&sync, &scene);

    assert_eq!(log, vec!["spawn A", "spawn B", "despawn A", "despawn B"]);
    assert_eq!(sync.registry().len(), 0);
    assert_eq!(scene.free_slots(), 4);
}

#[test]
fn step_reports_each_frame() {
    let base = BaseFrameOffset::identity();
    let mut scene = SceneGraph::new(4);
    let mut sync = TrackerSync::new();
    let r = sync.step(&mut scene, Some(&frame(&[(A, valid(1, 2, 3)), (B, invalid())])), &base);
    assert!(!r.skipped);
    assert!(!r.outage_began);
    assert_eq!(r.spawned, vec![A, B]);
    assert_eq!(r.failed, none());
    assert_eq!(r.despawned, none());
    assert_eq!(r.held, vec![B]);
    assert_eq!(r.errors(), Vec::<SyncError>::new());
    let r = sync.step(&mut scene, Some(&frame(&[(C, invalid()), (B, valid(0, 0, 9))])), &base);
    assert_eq!(r.spawned, vec![C]);
    assert_eq!(r.despawned, vec![A]);
    assert_eq!(r.held, vec![C]);
    assert_eq!(sync.registry().state_of(A), DeviceState::Unknown);
    assert_eq!(sync.registry().state_of(B), DeviceState::Active);
    assert_eq!(sync.registry().state_of(C), DeviceState::Active);
}

#[test]
fn valid_pose_is_written_every_frame() {
    let base = BaseFrameOffset::new(Vec3::new(ONE, 2 * ONE, 3 * ONE), YAW_90, ONE);
    let mut scene = SceneGraph::new(2);
    let mut sync = TrackerSync::new();
    let pose = RawPose {
        position: Vec3::new(ONE, 0, 0),
        orientation: Quat { w: 46341, x: 46341, y: 0, z: 0 },
        valid: true,
    };
    sync.step(&mut scene, Some(&frame(&[(A, pose)])), &base);
    let h = sync.registry().lookup(A).unwrap();
    assert_eq!(h, NodeHandle(0));
    let expected = Transform {
        position: Vec3 { x: 65536, y: 131072, z: 131072 },
        orientation: Quat { w: 32768, x: 32768, y: 32768, z: -32768 },
    };
    assert_eq!(scene.node(h), Some(Node { transform: expected, owner: NodeOwner::Tracker }));
    assert_eq!(convert(&pose, &base), Some(expected));

    // the next frame's pose replaces it
    let moved = valid(5, 6, 7);
    sync.step(&mut scene, Some(&frame(&[(A, moved)])), &base);
    assert_eq!(sync.registry().lookup(A), Some(h));
    assert_eq!(scene.transform_of(h), convert(&moved, &base));
    assert_ne!(scene.transform_of(h), Some(expected));
}

#[test]
fn invalid_pose_holds_the_last_transform() {
    let base = BaseFrameOffset::identity();
    let mut scene = SceneGraph::new(3);
    let mut sync = TrackerSync::new();
    sync.step(&mut scene, Some(&frame(&[(A, valid(10, 20, 30)), (B, valid(1, 1, 1))])), &base);
    let h = sync.registry().lookup(A).unwrap();
    let last = Transform { position: Vec3::new(10, 20, 30), orientation: YAW_90 };
    assert_eq!(scene.transform_of(h), Some(last));
    for n in 0..6 {
        let r = sync.step(
            &mut scene,
            Some(&frame(&[(A, invalid()), (B, valid(n, n, n))])),
            &base,
        );
        assert_eq!(r.held, vec![A]);
        assert_eq!(r.errors(), Vec::<SyncError>::new());
        assert_eq!(sync.registry().lookup(A), Some(h));
        assert_eq!(scene.node(h), Some(Node { transform: last, owner: NodeOwner::Tracker }));
        assert_in_sync(&sync, &scene);
    }
    // tracking comes back
    sync.step(&mut scene, Some(&frame(&[(A, valid(11, 21, 31)), (B, valid(1, 1, 1))])), &base);
    assert_eq!(
        scene.transform_of(h),
        Some(Transform { position: Vec3::new(11, 21, 31), orientation: YAW_90 })
    );
}

#[test]
fn device_that_never_had_a_pose_rests_at_the_identity() {
    let base = BaseFrameOffset::new(Vec3::new(9, 9, 9), YAW_90, ONE);
    let mut scene = SceneGraph::new(2);
    let mut sync = TrackerSync::new();
    for _ in 0..3 {
        let r = sync.step(&mut scene, Some(&frame(&[(A, invalid())])), &base);
        assert_eq!(r.held, vec![A]);
        let h = sync.registry().lookup(A).unwrap();
        assert_eq!(scene.transform_of(h), Some(Transform::identity()));
    }
}

#[test]
fn failed_creation_does_not_block_other_devices() {
    let base = BaseFrameOffset::identity();
    let mut scene = SceneGraph::new(2);
    let host = scene.create_node(Transform::identity()).unwrap();
    let mut sync = TrackerSync::new();
    let both = frame(&[(B, valid(4, 5, 6)), (A, valid(7, 8, 9))]);

    let r = sync.step(&mut scene, Some(&both), &base);
    assert_eq!(r.spawned, vec![B]);
    assert_eq!(r.failed, vec![A]);
    assert_eq!(r.errors(), vec![SyncError::NodeCreationFailed(A)]);
    let node_b = sync.registry().lookup(B).unwrap();
    assert_eq!(
        scene.node(node_b),
        Some(Node {
            transform: Transform { position: Vec3::new(4, 5, 6), orientation: YAW_90 },
            owner: NodeOwner::Tracker,
        })
    );
    assert_eq!(sync.registry().lookup(A), None);
    assert_eq!(sync.registry().state_of(A), DeviceState::Unknown);
    assert_in_sync(&sync, &scene);

    // still no room: A is tried again, and fails again
    let r = sync.step(&mut scene, Some(&both), &base);
    assert_eq!(r.spawned, none());
    assert_eq!(r.failed, vec![A]);
    assert_eq!(sync.registry().lookup(B), Some(node_b));

    // the host makes room: A is tried again, and gets its node
    assert_eq!(scene.destroy_node(host), Ok(()));
    let r = sync.step(&mut scene, Some(&both), &base);
    assert_eq!(r.spawned, vec![A]);
    assert_eq!(r.failed, none());
    assert_eq!(r.errors(), Vec::<SyncError>::new());
    let node_a = sync.registry().lookup(A).unwrap();
    assert_eq!(node_a, host);
    assert_eq!(
        scene.transform_of(node_a),
        Some(Transform { position: Vec3::new(7, 8, 9), orientation: YAW_90 })
    );
    assert_eq!(sync.registry().lookup(B), Some(node_b));
    assert_in_sync(&sync, &scene);
}

#[test]
fn step_touches_no_node_of_the_host() {
    let base = BaseFrameOffset::new(Vec3::new(1, 1, 1), YAW_90, 2 * ONE);
    let mut scene = SceneGraph::new(6);
    let t0 = Transform { position: Vec3::new(100, 0, 0), orientation: YAW_90 };
    let t1 = Transform { position: Vec3::new(0, 200, 0), orientation: Quat::identity() };
    let h0 = scene.create_node(t0).unwrap();
    let gap = scene.create_node(Transform::identity()).unwrap();
    let h1 = scene.create_node(t1).unwrap();
    scene.destroy_node(gap).unwrap();
    let mut sync = TrackerSync::new();
    let frames = [
        frame(&[(A, valid(1, 2, 3))]),
        frame(&[(A, valid(4, 5, 6)), (B, invalid()), (C, valid(0, 0, 0))]),
        frame(&[(B, valid(7, 7, 7))]),
        frame(&[]),
    ];
    for f in &frames {
        let tracked_before: Vec<NodeHandle> =
            (0..scene.capacity()).map(NodeHandle).filter(|h| scene.is_tracked(*h)).collect();
        let host_before: Vec<(NodeHandle, Option<Node>)> = (0..scene.capacity())
            .map(NodeHandle)
            .filter(|h| scene.contains(*h) && !scene.is_tracked(*h))
            .map(|h| (h, scene.node(h)))
            .collect();
        sync.step(&mut scene, Some(f), &base);
        for (h, node) in host_before {
            assert_eq!(scene.node(h), node);
        }
        for h in tracked_before {
            assert!(!scene.contains(h) || scene.is_tracked(h));
        }
        assert_eq!(scene.node(h0), Some(Node { transform: t0, owner: NodeOwner::Host }));
        assert_eq!(scene.node(h1), Some(Node { transform: t1, owner: NodeOwner::Host }));
        assert_in_sync(&sync, &scene);
    }
}

#[test]
fn one_device_does_not_move_another() {
    let base = BaseFrameOffset::identity();
    let mut scene = SceneGraph::new(4);
    let mut sync = TrackerSync::new();
    sync.step(&mut scene, Some(&frame(&[(A, valid(1, 1, 1)), (B, valid(2, 2, 2))])), &base);
    let node_b = sync.registry().lookup(B).unwrap();
    let b_before = scene.node(node_b);
    sync.step(&mut scene, Some(&frame(&[(A, valid(50, 60, 70)), (B, valid(2, 2, 2))])), &base);
    assert_eq!(scene.node(node_b), b_before);
    sync.step(&mut scene, Some(&frame(&[(B, valid(2, 2, 2))])), &base);
    assert_eq!(scene.node(node_b), b_before);
}

#[test]
fn missing_snapshot_skips_the_frame_and_is_reported_once() {
    let base = BaseFrameOffset::identity();
    let mut scene = SceneGraph::new(3);
    let mut sync = TrackerSync::new();
    sync.step(&mut scene, Some(&frame(&[(A, valid(3, 2, 1))])), &base);
    let h = sync.registry().lookup(A).unwrap();
    let node = scene.node(h);

    let r = sync.step(&mut scene, None, &base);
    assert!(r.skipped);
    assert!(r.outage_began);
    assert_eq!(r.errors(), vec![SyncError::DeviceSnapshotUnavailable]);
    assert_eq!(r.spawned, none());
    assert_eq!(r.failed, none());
    assert_eq!(r.despawned, none());
    assert_eq!(r.held, none());
    for _ in 0..4 {
        let r = sync.step(&mut scene, None, &base);
        assert!(r.skipped);
        assert!(!r.outage_began);
        assert_eq!(r.errors(), Vec::<SyncError>::new());
        assert_eq!(sync.registry().lookup(A), Some(h));
        assert_eq!(scene.node(h), node);
    }
    // a snapshot ends the outage; the next outage is reported again
    let r = sync.step(&mut scene, Some(&frame(&[(A, valid(3, 2, 1))])), &base);
    assert!(!r.skipped);
    assert!(!r.outage_began);
    let r = sync.step(&mut scene, None, &base);
    assert!(r.outage_began);
    assert_in_sync(&sync, &scene);
}

#[test]
fn missing_snapshot_in_the_first_frame_is_reported() {
    let mut scene = SceneGraph::new(1);
    let mut sync = TrackerSync::new();
    let r = sync.step(&mut scene, None, &BaseFrameOffset::identity());
    assert!(r.skipped);
    assert!(r.outage_began);
    assert_eq!(sync.registry().len(), 0);
    assert_eq!(scene.free_slots(), 1);
}

#[test]
fn errors_list_the_outage_first_and_then_each_failure() {
    let report = FrameReport {
        skipped: false,
        outage_began: true,
        spawned: vec![],
        failed: vec![C, A],
        despawned: vec![],
        held: vec![B],
    };
    assert_eq!(
        report.errors(),
        vec![
            SyncError::DeviceSnapshotUnavailable,
            SyncError::NodeCreationFailed(C),
            SyncError::NodeCreationFailed(A),
        ]
    );
}

#[test]
fn audit_finds_a_registry_that_does_not_fit_the_scene() {
    let base = BaseFrameOffset::identity();
    let mut scene = SceneGraph::new(3);
    let mut sync = TrackerSync::new();
    assert_eq!(sync.audit(&scene), Ok(()));
    sync.step(&mut scene, Some(&frame(&[(A, valid(0, 0, 0))])), &base);
    assert_eq!(sync.audit(&scene), Ok(()));

    // an entry without a node
    let other = SceneGraph::new(3);
    assert_eq!(sync.audit(&other), Err(SyncError::StaleRegistryEntry));
    let too_small = SceneGraph::new(0);
    assert_eq!(sync.audit(&too_small), Err(SyncError::StaleRegistryEntry));
    let mut hosted = SceneGraph::new(3);
    hosted.create_node(Transform::identity()).unwrap();
    assert_eq!(sync.audit(&hosted), Err(SyncError::StaleRegistryEntry));

    // a node without an entry
    let unknowing = TrackerSync::new();
    assert_eq!(unknowing.audit(&scene), Err(SyncError::StaleRegistryEntry));
    let mut second = TrackerSync::new();
    let mut crowded = SceneGraph::new(3);
    sync = TrackerSync::new();
    sync.step(&mut crowded, Some(&frame(&[(A, valid(0, 0, 0))])), &base);
    second.step(&mut SceneGraph::new(3), Some(&frame(&[(A, valid(0, 0, 0)), (B, valid(0, 0, 0))])), &base);
    assert_eq!(second.audit(&crowded), Err(SyncError::StaleRegistryEntry));
}
