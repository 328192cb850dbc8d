use tracker_sync::device::{DeviceId, DeviceRole, DeviceSample, Snapshot};
use tracker_sync::pose::{Quat, RawPose, Transform, Vec3};
use tracker_sync::registry::{DeviceRegistry, DeviceState, TrackedDevice};
use tracker_sync::scene::{Node, NodeHandle, NodeOwner, SceneGraph};

const A: DeviceId = DeviceId(10);
const B: DeviceId = DeviceId(20);
const C: DeviceId = DeviceId(30);

fn sample(id: DeviceId, role: DeviceRole) -> DeviceSample {
    let pose = RawPose { position: Vec3::new(1, 2, 3), orientation: Quat::identity(), valid: true };
    DeviceSample { id, role, pose }
}

fn snapshot_of(samples: &[DeviceSample]) -> Snapshot {
    let mut snapshot = Snapshot::new();
    for s in samples {
        assert!(snapshot.record(*s));
    }
    snapshot
}

#[test]
fn snapshot_keeps_one_sample_per_device() {
    let mut snapshot = Snapshot::new();
    assert_eq!(snapshot.len(), 0);
    assert!(!snapshot.contains(A));
    assert_eq!(snapshot.find(A), None);
    assert!(snapshot.record(sample(A, DeviceRole::Hmd)));
    assert!(snapshot.record(sample(B, DeviceRole::Controller)));
    assert!(!snapshot.record(sample(A, DeviceRole::GenericTracker)));
    assert_eq!(snapshot.len(), 2);
    assert_eq!(snapshot.find(A), Some(sample(A, DeviceRole::Hmd)));
    assert_eq!(snapshot.find(B), Some(sample(B, DeviceRole::Controller)));
    assert_eq!(snapshot.get(0), Some(sample(A, DeviceRole::Hmd)));
    assert_eq!(snapshot.get(1), Some(sample(B, DeviceRole::Controller)));
    assert_eq!(snapshot.get(2), None);
    assert!(snapshot.contains(B));
    assert!(!snapshot.contains(C));
}

#[test]
fn new_registry_knows_no_device() {
    let registry = DeviceRegistry::new();
    assert_eq!(registry.len(), 0);
    assert_eq!(registry.lookup(A), None);
    assert_eq!(registry.entry(A), None);
    assert_eq!(registry.owner(NodeHandle(0)), None);
    assert_eq!(registry.state_of(A), DeviceState::Unknown);
    assert_eq!(registry.get(0), None);
    assert!(registry.is_well_formed());
}

#[test]
fn reconcile_spawns_in_snapshot_order() {
    let mut scene = SceneGraph::new(4);
    let host = scene.create_node(Transform::identity()).unwrap();
    assert_eq!(host, NodeHandle(0));
    let mut registry = DeviceRegistry::new();
    let snapshot = snapshot_of(&[
        sample(B, DeviceRole::Controller),
        sample(A, DeviceRole::Hmd),
    ]);
    let out = registry.reconcile(&mut scene, &snapshot);
    assert_eq!(out.spawned, vec![B, A]);
    assert_eq!(out.failed, Vec::<DeviceId>::new());
    assert_eq!(out.despawned, Vec::<DeviceId>::new());
    assert_eq!(registry.len(), 2);
    assert_eq!(
        registry.get(0),
        Some(TrackedDevice { id: B, role: DeviceRole::Controller, node: NodeHandle(1) })
    );
    assert_eq!(
        registry.get(1),
        Some(TrackedDevice { id: A, role: DeviceRole::Hmd, node: NodeHandle(2) })
    );
    assert_eq!(registry.lookup(A), Some(NodeHandle(2)));
    assert_eq!(registry.lookup(B), Some(NodeHandle(1)));
    assert_eq!(registry.lookup(C), None);
    assert_eq!(registry.state_of(A), DeviceState::Active);
    assert_eq!(registry.state_of(C), DeviceState::Unknown);
    assert_eq!(registry.owner(NodeHandle(1)), registry.entry(B));
    assert_eq!(registry.owner(NodeHandle(0)), None);
    let fresh = Node { transform: Transform::identity(), owner: NodeOwner::Tracker };
    assert_eq!(scene.node(NodeHandle(1)), Some(fresh));
    assert_eq!(scene.node(NodeHandle(2)), Some(fresh));
    assert_eq!(scene.node(NodeHandle(3)), None);
    assert!(registry.is_well_formed());
}

#[test]
fn reconcile_despawns_oldest_first_and_keeps_survivors() {
    let mut scene = SceneGraph::new(4);
    let mut registry = DeviceRegistry::new();
    let all = snapshot_of(&[
        sample(A, DeviceRole::Hmd),
        sample(B, DeviceRole::Controller),
        sample(C, DeviceRole::GenericTracker),
    ]);
    registry.reconcile(&mut scene, &all);
    let node_b = registry.lookup(B);
    assert_eq!(node_b, Some(NodeHandle(1)));

    let only_b = snapshot_of(&[sample(B, DeviceRole::Controller)]);
    let out = registry.reconcile(&mut scene, &only_b);
    assert_eq!(out.spawned, Vec::<DeviceId>::new());
    assert_eq!(out.failed, Vec::<DeviceId>::new());
    assert_eq!(out.despawned, vec![A, C]);
    assert_eq!(registry.len(), 1);
    assert_eq!(registry.lookup(B), node_b);
    assert_eq!(registry.lookup(A), None);
    assert_eq!(registry.lookup(C), None);
    assert!(!scene.contains(NodeHandle(0)));
    assert!(scene.is_tracked(NodeHandle(1)));
    assert!(!scene.contains(NodeHandle(2)));
    assert_eq!(scene.free_slots(), 3);
}

#[test]
fn reconcile_with_an_unchanged_set_changes_nothing() {
    let mut scene = SceneGraph::new(2);
    let mut registry = DeviceRegistry::new();
    let both = snapshot_of(&[sample(A, DeviceRole::Hmd), sample(B, DeviceRole::Controller)]);
    registry.reconcile(&mut scene, &both);
    let before = (registry.get(0), registry.get(1), scene.node(NodeHandle(0)), scene.node(NodeHandle(1)));
    let out = registry.reconcile(&mut scene, &both);
    assert_eq!(out.spawned, Vec::<DeviceId>::new());
    assert_eq!(out.failed, Vec::<DeviceId>::new());
    assert_eq!(out.despawned, Vec::<DeviceId>::new());
    let after = (registry.get(0), registry.get(1), scene.node(NodeHandle(0)), scene.node(NodeHandle(1)));
    assert_eq!(before, after);
}

#[test]
fn reconcile_fails_the_arrivals_that_find_no_room() {
    let mut scene = SceneGraph::new(3);
    scene.create_node(Transform::identity()).unwrap();
    let mut registry = DeviceRegistry::new();
    let all = snapshot_of(&[
        sample(C, DeviceRole::GenericTracker),
        sample(A, DeviceRole::Hmd),
        sample(B, DeviceRole::Controller),
    ]);
    let out = registry.reconcile(&mut scene, &all);
    assert_eq!(out.spawned, vec![C, A]);
    assert_eq!(out.failed, vec![B]);
    assert_eq!(out.despawned, Vec::<DeviceId>::new());
    assert_eq!(registry.state_of(B), DeviceState::Unknown);
    assert_eq!(registry.lookup(B), None);
    assert_eq!(registry.len(), 2);
    assert_eq!(scene.free_slots(), 0);
}

#[test]
fn reconcile_spawns_before_it_despawns() {
    let mut scene = SceneGraph::new(1);
    let mut registry = DeviceRegistry::new();
    let first = snapshot_of(&[sample(A, DeviceRole::Hmd)]);
    registry.reconcile(&mut scene, &first);
    assert_eq!(registry.lookup(A), Some(NodeHandle(0)));

    // A goes and B comes in one frame: B finds the scene still full.
    let second = snapshot_of(&[sample(B, DeviceRole::Controller)]);
    let out = registry.reconcile(&mut scene, &second);
    assert_eq!(out.spawned, Vec::<DeviceId>::new());
    assert_eq!(out.failed, vec![B]);
    assert_eq!(out.despawned, vec![A]);
    assert_eq!(registry.len(), 0);
    assert_eq!(scene.free_slots(), 1);

    // B is tried again in the next frame.
    let out = registry.reconcile(&mut scene, &second);
    assert_eq!(out.spawned, vec![B]);
    assert_eq!(out.failed, Vec::<DeviceId>::new());
    assert_eq!(registry.lookup(B), Some(NodeHandle(0)));
}

#[test]
fn reconnected_device_gets_a_fresh_node() {
    let mut scene = SceneGraph::new(3);
    let mut registry = DeviceRegistry::new();
    let both = snapshot_of(&[sample(A, DeviceRole::Hmd), sample(B, DeviceRole::Controller)]);
    registry.reconcile(&mut scene, &both);
    let only_b = snapshot_of(&[sample(B, DeviceRole::Controller)]);
    registry.reconcile(&mut scene, &only_b);
    let out = registry.reconcile(&mut scene, &both);
    assert_eq!(out.spawned, vec![A]);
    assert_eq!(registry.get(0).unwrap().id, B);
    assert_eq!(registry.get(1).unwrap().id, A);
    let fresh = Node { transform: Transform::identity(), owner: NodeOwner::Tracker };
    assert_eq!(scene.node(registry.lookup(A).unwrap()), Some(fresh));
}
