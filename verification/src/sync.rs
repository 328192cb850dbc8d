//! The per-frame synchronization step.
//!
//! [`TrackerSync::step`] is run once per rendered frame, after the scene has
//! been loaded and before anything reads the nodes' transforms for rendering.
//! It takes the frame's snapshot as a whole, reconciles the registry with it,
//! and writes the converted pose of every connected device to the device's
//! node. A connected device without a valid pose keeps the transform that its
//! node has.

use vstd::prelude::*;
use crate::device::{connected, sample_of, DeviceId, DeviceSample, Snapshot};
use crate::pose::{convert, convert_spec, BaseFrameOffset, RawPose, Transform};
use crate::registry::{
    departed, device_ids, in_sync, is_survivor, lemma_entry_of, membership, owner_index, owner_of,
    owns, reconciled_slot, scene_reconciled, survivors, DeviceRegistry, Reconciliation,
    TrackedDevice,
};
use crate::scene::{slot, tracker_owned, Node, NodeHandle, NodeOwner, SceneGraph};

verus! {

/// What the step reports to the host's logging.
#[derive(Clone, Copy, Debug, PartialEq, Eq, Structural)]
pub enum SyncError {
    /// The pose source had no snapshot for the frame.
    DeviceSnapshotUnavailable,
    /// The scene had no room for the node of a device that appeared.
    NodeCreationFailed(DeviceId),
    /// The registry and the scene do not agree.
    StaleRegistryEntry,
}

/// What one frame's step did.
#[derive(Debug)]
pub struct FrameReport {
    /// There was no snapshot, and nothing was touched.
    pub skipped: bool,
    /// The frame is the first without a snapshot after one with a snapshot:
    /// the one frame of an outage that is worth a log line.
    pub outage_began: bool,
    /// The devices that appeared and got a node, in the snapshot's order.
    pub spawned: Vec<DeviceId>,
    /// The devices that appeared and got no node, in the snapshot's order.
    pub failed: Vec<DeviceId>,
    /// The devices that went, oldest first.
    pub despawned: Vec<DeviceId>,
    /// The connected devices without a valid pose, oldest first.
    pub held: Vec<DeviceId>,
}

/// The view of a [`FrameReport`].
pub struct FrameView {
    pub skipped: bool,
    pub outage_began: bool,
    pub spawned: Seq<DeviceId>,
    pub failed: Seq<DeviceId>,
    pub despawned: Seq<DeviceId>,
    pub held: Seq<DeviceId>,
}

/// The view of a [`TrackerSync`].
pub struct SyncState {
    pub registry: Seq<TrackedDevice>,
    pub outage_reported: bool,
}

/// The state that the step keeps from frame to frame.
pub struct TrackerSync {
    registry: DeviceRegistry,
    outage_reported: bool,
}

/// The converted pose, or `rest` for a pose that is not valid.
pub open spec fn pose_or(raw: RawPose, base: BaseFrameOffset, rest: Transform) -> Transform {
    match convert_spec(raw, base) {
        Some(t) => t,
        None => rest,
    }
}

/// The transform that the node in the slot `h` has in the scene `s`, and the
/// identity for a free slot.
pub open spec fn resting(s: Seq<Option<Node>>, h: NodeHandle) -> Transform {
    match slot(s, h) {
        Some(n) => n.transform,
        None => Transform::identity_spec(),
    }
}

/// The node of the device that owns `h`, posed by the device's sample, or
/// left at `rest` where the sample has no valid pose.
pub open spec fn posed_node(
    r: Seq<TrackedDevice>,
    snap: Seq<DeviceSample>,
    base: BaseFrameOffset,
    rest: Transform,
    h: NodeHandle,
) -> Node {
    Node {
        transform: pose_or(sample_of(snap, owner_of(r, h).id).pose, base, rest),
        owner: NodeOwner::Tracker,
    }
}

/// What the slot `h` holds after a frame with a snapshot: nothing where the
/// node of a departed device was; the posed node of its device where a
/// device of the new registry `r1` owns it; and what it held before
/// everywhere else.
pub open spec fn frame_slot(
    r0: Seq<TrackedDevice>,
    s0: Seq<Option<Node>>,
    snap: Seq<DeviceSample>,
    base: BaseFrameOffset,
    r1: Seq<TrackedDevice>,
    h: NodeHandle,
) -> Option<Node> {
    if departed(r0, snap, h) {
        None
    } else if owns(r1, h) {
        Some(posed_node(r1, snap, base, resting(s0, h), h))
    } else {
        slot(s0, h)
    }
}

/// The scene `s1` is the scene `s0` after a frame that took the registry
/// from `r0` to `r1`.
pub open spec fn scene_synchronized(
    r0: Seq<TrackedDevice>,
    s0: Seq<Option<Node>>,
    snap: Seq<DeviceSample>,
    base: BaseFrameOffset,
    r1: Seq<TrackedDevice>,
    s1: Seq<Option<Node>>,
) -> bool {
    &&& s1.len() == s0.len()
    &&& forall|h: NodeHandle|
        h.0 < s0.len() ==> #[trigger] slot(s1, h) == frame_slot(r0, s0, snap, base, r1, h)
}

/// Picks the ids whose sample in `snap` has no valid pose.
pub open spec fn is_held(snap: Seq<DeviceSample>) -> spec_fn(DeviceId) -> bool {
    |id: DeviceId| !sample_of(snap, id).pose.valid
}

/// One frame of the step: from the state `t0` and the scene `s0`, under the
/// snapshot `frame` (`None` where the pose source had none) and the offset
/// `base`, to the state `t1`, the scene `s1` and the report.
pub open spec fn frame_outcome(
    t0: SyncState,
    s0: Seq<Option<Node>>,
    frame: Option<Seq<DeviceSample>>,
    base: BaseFrameOffset,
    t1: SyncState,
    s1: Seq<Option<Node>>,
    report: FrameView,
) -> bool {
    match frame {
        Some(snap) => {
            &&& membership(
                t0.registry,
                s0,
                snap,
                t1.registry,
                report.spawned,
                report.failed,
                report.despawned,
            )
            &&& scene_synchronized(t0.registry, s0, snap, base, t1.registry, s1)
            &&& in_sync(t1.registry, s1)
            &&& report.held == device_ids(t1.registry).filter(is_held(snap))
            &&& !report.skipped
            &&& !report.outage_began
            &&& !t1.outage_reported
        },
        None => {
            &&& t1.registry == t0.registry
            &&& s1 == s0
            &&& t1.outage_reported
            &&& report.skipped
            &&& report.outage_began == !t0.outage_reported
            &&& report.spawned.len() == 0
            &&& report.failed.len() == 0
            &&& report.despawned.len() == 0
            &&& report.held.len() == 0
        },
    }
}

/// Makes a failed device's id the error that reports it.
pub open spec fn creation_failed() -> spec_fn(DeviceId) -> SyncError {
    |id: DeviceId| SyncError::NodeCreationFailed(id)
}

/// The errors that a report holds: the outage, where one began, and then one
/// error for each device that got no node.
pub open spec fn report_errors(report: FrameView) -> Seq<SyncError> {
    let outage = if report.outage_began {
        seq![SyncError::DeviceSnapshotUnavailable]
    } else {
        Seq::<SyncError>::empty()
    };
    outage + report.failed.map_values(creation_failed())
}

/// The samples of a snapshot that is there.
pub open spec fn frame_of(snapshot: Option<&Snapshot>) -> Option<Seq<DeviceSample>> {
    match snapshot {
        Some(s) => Some(s@),
        None => None,
    }
}

/// What posing the devices of `r` makes of the scene `sm`.
spec fn posed(
    r: Seq<TrackedDevice>,
    sm: Seq<Option<Node>>,
    snap: Seq<DeviceSample>,
    base: BaseFrameOffset,
    s1: Seq<Option<Node>>,
    held: Seq<DeviceId>,
) -> bool {
    &&& s1.len() == sm.len()
    &&& forall|h: NodeHandle|
        h.0 < sm.len() ==> #[trigger] slot(s1, h) == (if owns(r, h) {
            Some(posed_node(r, snap, base, resting(sm, h), h))
        } else {
            slot(sm, h)
        })
    &&& held == device_ids(r).filter(is_held(snap))
    &&& in_sync(r, s1)
}

/// The slot `h` as posing the first `i` devices of `r` leaves it.
spec fn posed_before(
    r: Seq<TrackedDevice>,
    sm: Seq<Option<Node>>,
    snap: Seq<DeviceSample>,
    base: BaseFrameOffset,
    i: int,
    h: NodeHandle,
) -> Option<Node> {
    if owns(r, h) && owner_index(r, h) < i {
        Some(posed_node(r, snap, base, resting(sm, h), h))
    } else {
        slot(sm, h)
    }
}

/// Reconciling and then posing is one frame.
proof fn lemma_frame(
    r0: Seq<TrackedDevice>,
    s0: Seq<Option<Node>>,
    snap: Seq<DeviceSample>,
    base: BaseFrameOffset,
    r1: Seq<TrackedDevice>,
    sm: Seq<Option<Node>>,
    s1: Seq<Option<Node>>,
    held: Seq<DeviceId>,
)
    requires
        scene_reconciled(r0, s0, snap, r1, sm),
        in_sync(r1, sm),
        posed(r1, sm, snap, base, s1, held),
    ensures
        scene_synchronized(r0, s0, snap, base, r1, s1),
{
    assert forall|h: NodeHandle| h.0 < s0.len() implies #[trigger] slot(s1, h) == frame_slot(
        r0,
        s0,
        snap,
        base,
        r1,
        h,
    ) by {
        assert(slot(sm, h) == reconciled_slot(r0, s0, snap, r1, h));
        if owns(r1, h) {
            let c = owner_index(r1, h);
            assert(tracker_owned(sm, r1[c].node));
        }
    }
}

/// Writes the converted pose of every device that has a valid one to the
/// device's node, and lists the devices that have none.
fn pose_devices(
    registry: &DeviceRegistry,
    scene: &mut SceneGraph,
    snapshot: &Snapshot,
    base: &BaseFrameOffset,
) -> (held: Vec<DeviceId>)
    requires
        in_sync(registry@, old(scene)@),
        snapshot.wf(),
        forall|i: int| 0 <= i < registry@.len() ==> connected(snapshot@, (#[trigger] registry@[i]).id),
    ensures
        posed(registry@, old(scene)@, snapshot@, *base, final(scene)@, held@),
{
    let ghost r = registry@;
    let ghost sm = scene@;
    let ghost snap = snapshot@;
    let ghost ids = device_ids(r);
    let mut held: Vec<DeviceId> = Vec::new();
    let n: usize = registry.len();
    let mut i: usize = 0;
    proof {
        ids.take(0).lemma_filter_len(is_held(snap));
        assert(held@ =~= ids.take(0).filter(is_held(snap)));
    }
    while i < n
        invariant
            i <= n,
            n == r.len(),
            r == registry@,
            snap == snapshot@,
            ids == device_ids(r),
            snapshot.wf(),
            in_sync(r, sm),
            in_sync(r, scene@),
            scene@.len() == sm.len(),
            forall|j: int| 0 <= j < r.len() ==> connected(snap, (#[trigger] r[j]).id),
            held@ == ids.take(i as int).filter(is_held(snap)),
            forall|h: NodeHandle|
                h.0 < sm.len() ==> #[trigger] slot(scene@, h) == posed_before(
                    r,
                    sm,
                    snap,
                    *base,
                    i as int,
                    h,
                ),
        decreases n - i,
    {
        let e: TrackedDevice = registry.get(i).unwrap();
        let ghost scene_before = scene@;
        proof {
            assert(ids.take(i + 1) =~= ids.take(i as int).push(e.id));
            ids.take(i as int).lemma_filter_push(e.id, is_held(snap));
            lemma_entry_of(r, i as int);
            assert(tracker_owned(sm, r[i as int].node));
            assert(tracker_owned(scene_before, r[i as int].node));
            assert(slot(scene_before, e.node) == posed_before(r, sm, snap, *base, i as int, e.node));
        }
        let sample: DeviceSample = snapshot.find(e.id).unwrap();
        match convert(&sample.pose, base) {
            Some(t) => {
                scene.write(e.node, t);
                proof {
                    let s = scene@;
                    assert forall|a: int| 0 <= a < r.len() implies tracker_owned(
                        s,
                        (#[trigger] r[a]).node,
                    ) by {
                        assert(tracker_owned(scene_before, r[a].node));
                    }
                    assert forall|hh: NodeHandle| #[trigger] tracker_owned(s, hh) implies owns(
                        r,
                        hh,
                    ) by {
                        assert(tracker_owned(scene_before, hh));
                    }
                }
            },
            None => {
                held.push(e.id);
            },
        }
        proof {
            assert forall|h: NodeHandle| h.0 < sm.len() implies #[trigger] slot(scene@, h)
                == posed_before(r, sm, snap, *base, i + 1, h) by {
                assert(slot(scene_before, h) == posed_before(r, sm, snap, *base, i as int, h));
                if h != e.node && owns(r, h) {
                    let b = owner_index(r, h);
                    assert(r[b].node == h);
                }
            }
        }
        i = i + 1;
    }
    proof {
        assert(ids.take(n as int) =~= ids);
        assert forall|h: NodeHandle| h.0 < sm.len() implies #[trigger] slot(scene@, h) == (if owns(
            r,
            h,
        ) {
            Some(posed_node(r, snap, *base, resting(sm, h), h))
        } else {
            slot(sm, h)
        }) by {
            assert(slot(scene@, h) == posed_before(r, sm, snap, *base, n as int, h));
            if owns(r, h) {
                let b = owner_index(r, h);
                assert(r[b].node == h);
            }
        }
    }
    held
}

impl View for FrameReport {
    type V = FrameView;

    open spec fn view(&self) -> FrameView {
        FrameView {
            skipped: self.skipped,
            outage_began: self.outage_began,
            spawned: self.spawned@,
            failed: self.failed@,
            despawned: self.despawned@,
            held: self.held@,
        }
    }
}

impl FrameReport {
    /// What of the frame is worth a log line. A held device is no error and
    /// is not among them.
    pub fn errors(&self) -> (errors: Vec<SyncError>)
        ensures
            errors@ == report_errors(self@),
    {
        let mut errors: Vec<SyncError> = Vec::new();
        if self.outage_began {
            errors.push(SyncError::DeviceSnapshotUnavailable);
        }
        let ghost outage = errors@;
        let n: usize = self.failed.len();
        let mut i: usize = 0;
        while i < n
            invariant
                i <= n,
                n == self.failed@.len(),
                errors@ == outage + self.failed@.take(i as int).map_values(creation_failed()),
            decreases n - i,
        {
            errors.push(SyncError::NodeCreationFailed(self.failed[i]));
            assert(errors@ =~= outage + self.failed@.take(i + 1).map_values(creation_failed()));
            i = i + 1;
        }
        assert(self.failed@.take(n as int) =~= self.failed@);
        errors
    }
}

impl View for TrackerSync {
    type V = SyncState;

    closed spec fn view(&self) -> SyncState {
        SyncState { registry: self.registry@, outage_reported: self.outage_reported }
    }
}

impl TrackerSync {
    /// The state before the first frame: no device is known.
    pub fn new() -> (sync: TrackerSync)
        ensures
            sync@.registry == Seq::<TrackedDevice>::empty(),
            !sync@.outage_reported,
    {
        TrackerSync { registry: DeviceRegistry::new(), outage_reported: false }
    }

    /// The registry, to look devices up in.
    pub fn registry(&self) -> (registry: &DeviceRegistry)
        ensures
            registry@ == self@.registry,
    {
        &self.registry
    }

    /// Checks that the registry and the scene agree: that the entries and the
    /// nodes which the tracker owns correspond one to one. [`Self::step`]
    /// keeps them so; they disagree only where the step has been run on
    /// another scene than the one before.
    pub fn audit(&self, scene: &SceneGraph) -> (r: Result<(), SyncError>)
        ensures
            r == (if in_sync(self@.registry, scene@) {
                Ok::<(), SyncError>(())
            } else {
                Err::<(), SyncError>(SyncError::StaleRegistryEntry)
            }),
    {
        if !self.registry.is_well_formed() {
            return Err(SyncError::StaleRegistryEntry);
        }
        let ghost r = self.registry@;
        let n: usize = self.registry.len();
        let mut i: usize = 0;
        while i < n
            invariant
                i <= n,
                n == r.len(),
                r == self.registry@,
                forall|a: int| 0 <= a < i ==> tracker_owned(scene@, (#[trigger] r[a]).node),
            decreases n - i,
        {
            let e: TrackedDevice = self.registry.get(i).unwrap();
            if !scene.is_tracked(e.node) {
                assert(!tracker_owned(scene@, r[i as int].node));
                return Err(SyncError::StaleRegistryEntry);
            }
            i = i + 1;
        }
        let capacity: usize = scene.capacity();
        let mut x: usize = 0;
        while x < capacity
            invariant
                x <= capacity,
                capacity == scene@.len(),
                r == self.registry@,
                self.registry.wf(),
                forall|h: NodeHandle| #[trigger] tracker_owned(scene@, h) && h.0 < x ==> owns(r, h),
            decreases capacity - x,
        {
            let h = NodeHandle(x);
            if scene.is_tracked(h) && self.registry.owner(h).is_none() {
                return Err(SyncError::StaleRegistryEntry);
            }
            x = x + 1;
        }
        Ok(())
    }

    /// Runs one frame.
    ///
    /// Without a snapshot the frame is skipped: the registry and every node
    /// stay as they are, and the report asks for a log line only in the first
    /// such frame of a row.
    ///
    /// With a snapshot the registry is reconciled with it (see
    /// [`DeviceRegistry::reconcile`]), and then every device of the registry
    /// with a valid pose has the pose, converted under `base`, written to
    /// its node. A device without a valid pose is listed as held and its
    /// node keeps the transform it has: the one from the last valid pose, or
    /// the identity where the device never had one. No other node of the
    /// scene is touched.
    ///
    /// The registry and the scene must agree when the step begins, and they
    /// agree when it ends: a step that always runs on the same scene keeps
    /// them so, and [`Self::audit`] tells whether they do.
    pub fn step(
        &mut self,
        scene: &mut SceneGraph,
        snapshot: Option<&Snapshot>,
        base: &BaseFrameOffset,
    ) -> (report: FrameReport)
        requires
            in_sync(old(self)@.registry, old(scene)@),
            snapshot matches Some(s) ==> s.wf(),
        ensures
            frame_outcome(
                old(self)@,
                old(scene)@,
                frame_of(snapshot),
                *base,
                final(self)@,
                final(scene)@,
                report@,
            ),
            in_sync(final(self)@.registry, final(scene)@),
    {
        match snapshot {
            None => {
                let first: bool = !self.outage_reported;
                self.outage_reported = true;
                FrameReport {
                    skipped: true,
                    outage_began: first,
                    spawned: Vec::new(),
                    failed: Vec::new(),
                    despawned: Vec::new(),
                    held: Vec::new(),
                }
            },
            Some(s) => {
                let ghost r0 = self.registry@;
                let ghost s0 = scene@;
                self.outage_reported = false;
                let changes: Reconciliation = self.registry.reconcile(scene, s);
                let ghost sm = scene@;
                proof {
                    let r1 = self.registry@;
                    let kept = survivors(r0, s@);
                    assert forall|i: int| 0 <= i < r1.len() implies connected(
                        s@,
                        (#[trigger] r1[i]).id,
                    ) by {
                        if i < kept.len() {
                            assert(r1.take(kept.len() as int)[i] == r1[i]);
                            r0.lemma_filter_pred(is_survivor(s@), i);
                        }
                    }
                }
                let held: Vec<DeviceId> = pose_devices(&self.registry, scene, s, base);
                proof {
                    lemma_frame(r0, s0, s@, *base, self.registry@, sm, scene@, held@);
                }
                FrameReport {
                    skipped: false,
                    outage_began: false,
                    spawned: changes.spawned,
                    failed: changes.failed,
                    despawned: changes.despawned,
                    held,
                }
            },
        }
    }
}

} // verus!
