//! What holds of every frame: consequences of the contracts of the converter
//! and of the step, each one proved.

use vstd::prelude::*;
use crate::device::{connected, distinct_samples, sample_ids, sample_of, DeviceId, DeviceSample};
use crate::fixed::{
    div_round_spec, floor_sqrt, lemma_div_round_error, lemma_floor_sqrt_exists, ONE, ONE_SQ,
};
use crate::pose::{convert_spec, BaseFrameOffset, Quat, RawPose, Transform, Vec3};
use crate::registry::{
    arrivals, enrolled_count, entry_of, in_sync, is_arrival, is_survivor, lemma_entry_of, node_of,
    owner_index, owner_of, owns, registered, survivors, TrackedDevice,
};
use crate::scene::{free_count, slot, tracker_owned, Node, NodeHandle, NodeOwner};
use crate::sync::{frame_outcome, frame_slot, pose_or, resting, FrameView, SyncState};

verus! {

/// A run of the step: the states and scenes before and after each of a
/// sequence of frames, starting from a registry and a scene that agree.
pub open spec fn is_run(
    states: Seq<SyncState>,
    scenes: Seq<Seq<Option<Node>>>,
    frames: Seq<Option<Seq<DeviceSample>>>,
    bases: Seq<BaseFrameOffset>,
    reports: Seq<FrameView>,
) -> bool {
    &&& states.len() == frames.len() + 1
    &&& scenes.len() == frames.len() + 1
    &&& bases.len() == frames.len()
    &&& reports.len() == frames.len()
    &&& in_sync(states[0].registry, scenes[0])
    &&& forall|k: int|
        #![trigger frames[k]]
        0 <= k < frames.len() ==> frame_outcome(
            states[k],
            scenes[k],
            frames[k],
            bases[k],
            states[k + 1],
            scenes[k + 1],
            reports[k],
        )
}

/// The device `id` is connected in the frame and has no valid pose, or the
/// frame has no snapshot at all.
pub open spec fn holds_still(frame: Option<Seq<DeviceSample>>, id: DeviceId) -> bool {
    frame matches Some(snap) ==> connected(snap, id) && !sample_of(snap, id).pose.valid
}

/// A filter keeps a sequence without repetitions free of them.
proof fn lemma_filter_distinct<A>(s: Seq<A>, p: spec_fn(A) -> bool)
    requires
        s.no_duplicates(),
    ensures
        s.filter(p).no_duplicates(),
    decreases s.len(),
{
    reveal(Seq::filter);
    if s.len() > 0 {
        let t = s.drop_last();
        assert(t.no_duplicates()) by {
            assert forall|i: int, j: int|
                0 <= i < t.len() && 0 <= j < t.len() && i != j implies t[i] != t[j] by {
                assert(t[i] == s[i] && t[j] == s[j]);
            }
        }
        lemma_filter_distinct(t, p);
        let f = t.filter(p);
        if p(s.last()) {
            if f.contains(s.last()) {
                t.lemma_filter_contains_rev(p, s.last());
                let i = choose|i: int| 0 <= i < t.len() && t[i] == s.last();
                assert(s[i] == t[i]);
                assert(false);
            }
            let g = f.push(s.last());
            assert forall|i: int, j: int|
                0 <= i < g.len() && 0 <= j < g.len() && i != j implies g[i] != g[j] by {
                if i < f.len() && j < f.len() {
                    assert(g[i] == f[i] && g[j] == f[j]);
                } else if i < f.len() {
                    assert(f[i] == g[i]);
                    assert(f.contains(g[i]));
                } else {
                    assert(f[j] == g[j]);
                    assert(f.contains(g[j]));
                }
            }
        }
    }
}

/// Every survivor is an entry of the old registry, of a connected device.
proof fn lemma_survivor(r0: Seq<TrackedDevice>, snap: Seq<DeviceSample>, c: int) -> (i: int)
    requires
        0 <= c < survivors(r0, snap).len(),
    ensures
        0 <= i < r0.len(),
        r0[i] == survivors(r0, snap)[c],
        connected(snap, r0[i].id),
{
    let kept = survivors(r0, snap);
    r0.lemma_filter_pred(is_survivor(snap), c);
    assert(kept.contains(kept[c]));
    r0.lemma_filter_contains_rev(is_survivor(snap), kept[c]);
    choose|i: int| 0 <= i < r0.len() && r0[i] == kept[c]
}

/// The mapping invariant. In a registry and a scene that agree, the devices
/// of the registry and the nodes that the tracker owns correspond one to
/// one: the node of a device is a live node of the tracker's whose owner is
/// that device, and the owner of a node of the tracker's is a device whose
/// node is that node. No node is an orphan and no entry dangles.
pub proof fn lemma_mapping_is_one_to_one(r: Seq<TrackedDevice>, s: Seq<Option<Node>>)
    requires
        in_sync(r, s),
    ensures
        forall|id: DeviceId| #[trigger]
            registered(r, id) ==> tracker_owned(s, entry_of(r, id).node) && owner_of(
                r,
                entry_of(r, id).node,
            ).id == id,
        forall|h: NodeHandle| #[trigger]
            tracker_owned(s, h) ==> registered(r, owner_of(r, h).id) && entry_of(
                r,
                owner_of(r, h).id,
            ).node == h,
{
    assert forall|id: DeviceId| #[trigger] registered(r, id) implies tracker_owned(
        s,
        entry_of(r, id).node,
    ) && owner_of(r, entry_of(r, id).node).id == id by {
        let i = choose|i: int| #![trigger r[i]] 0 <= i < r.len() && r[i].id == id;
        lemma_entry_of(r, i);
    }
    assert forall|h: NodeHandle| #[trigger] tracker_owned(s, h) implies registered(
        r,
        owner_of(r, h).id,
    ) && entry_of(r, owner_of(r, h).id).node == h by {
        assert(owns(r, h));
        let i = owner_index(r, h);
        assert(r[i].node == h);
        lemma_entry_of(r, i);
    }
}

/// The mapping invariant holds in every frame: after any number of frames
/// the registry and the scene agree.
pub proof fn lemma_run_stays_in_sync(
    states: Seq<SyncState>,
    scenes: Seq<Seq<Option<Node>>>,
    frames: Seq<Option<Seq<DeviceSample>>>,
    bases: Seq<BaseFrameOffset>,
    reports: Seq<FrameView>,
    k: int,
)
    requires
        is_run(states, scenes, frames, bases, reports),
        0 <= k <= frames.len(),
    ensures
        in_sync(states[k].registry, scenes[k]),
    decreases k,
{
    if k > 0 {
        lemma_run_stays_in_sync(states, scenes, frames, bases, reports, k - 1);
        let f = frames[k - 1];
        assert(frame_outcome(
            states[k - 1],
            scenes[k - 1],
            f,
            bases[k - 1],
            states[k - 1 + 1],
            scenes[k - 1 + 1],
            reports[k - 1],
        ));
    }
}

/// After a frame with a snapshot, the devices with an entry are the ones
/// that had an entry and are still connected, and the ones that were
/// spawned.
pub proof fn lemma_active_after_frame(
    t0: SyncState,
    s0: Seq<Option<Node>>,
    snap: Seq<DeviceSample>,
    base: BaseFrameOffset,
    t1: SyncState,
    s1: Seq<Option<Node>>,
    report: FrameView,
    id: DeviceId,
)
    requires
        in_sync(t0.registry, s0),
        frame_outcome(t0, s0, Some(snap), base, t1, s1, report),
    ensures
        registered(t1.registry, id) <==> (registered(t0.registry, id) && connected(snap, id))
            || report.spawned.contains(id),
{
    let r0 = t0.registry;
    let r1 = t1.registry;
    let kept = survivors(r0, snap);
    if registered(r1, id) {
        let c = choose|c: int| #![trigger r1[c]] 0 <= c < r1.len() && r1[c].id == id;
        if c < kept.len() {
            assert(r1.take(kept.len() as int)[c] == r1[c]);
            let i = lemma_survivor(r0, snap, c);
        } else {
            assert(report.spawned[c - kept.len()] == id);
        }
    }
    if registered(r0, id) && connected(snap, id) {
        lemma_survivor_keeps_node(t0, s0, snap, base, t1, s1, report, id);
    }
    if report.spawned.contains(id) {
        let j = choose|j: int| 0 <= j < report.spawned.len() && report.spawned[j] == id;
        assert(r1[kept.len() + j].id == id);
    }
}

/// A device that stays connected keeps its entry, and with it its node.
pub proof fn lemma_survivor_keeps_node(
    t0: SyncState,
    s0: Seq<Option<Node>>,
    snap: Seq<DeviceSample>,
    base: BaseFrameOffset,
    t1: SyncState,
    s1: Seq<Option<Node>>,
    report: FrameView,
    id: DeviceId,
)
    requires
        in_sync(t0.registry, s0),
        frame_outcome(t0, s0, Some(snap), base, t1, s1, report),
        registered(t0.registry, id),
        connected(snap, id),
    ensures
        registered(t1.registry, id),
        entry_of(t1.registry, id) == entry_of(t0.registry, id),
        node_of(t1.registry, id) == node_of(t0.registry, id),
{
    let r0 = t0.registry;
    let r1 = t1.registry;
    let kept = survivors(r0, snap);
    let i = choose|i: int| #![trigger r0[i]] 0 <= i < r0.len() && r0[i].id == id;
    lemma_entry_of(r0, i);
    r0.lemma_filter_contains(is_survivor(snap), i);
    let c = choose|c: int| 0 <= c < kept.len() && kept[c] == r0[i];
    assert(r1.take(kept.len() as int)[c] == r1[c]);
    lemma_entry_of(r1, c);
}

/// After a frame with a snapshot, the node of every device with an entry
/// carries the device's converted pose; where the device has no valid pose
/// it carries the transform that the slot had before the frame, which is the
/// identity for a node created in this frame.
pub proof fn lemma_node_after_frame(
    t0: SyncState,
    s0: Seq<Option<Node>>,
    snap: Seq<DeviceSample>,
    base: BaseFrameOffset,
    t1: SyncState,
    s1: Seq<Option<Node>>,
    report: FrameView,
    id: DeviceId,
)
    requires
        in_sync(t0.registry, s0),
        frame_outcome(t0, s0, Some(snap), base, t1, s1, report),
        registered(t1.registry, id),
    ensures
        ({
            let h = entry_of(t1.registry, id).node;
            slot(s1, h) == Some(
                Node {
                    transform: pose_or(sample_of(snap, id).pose, base, resting(s0, h)),
                    owner: NodeOwner::Tracker,
                },
            )
        }),
{
    let r1 = t1.registry;
    let i = choose|i: int| #![trigger r1[i]] 0 <= i < r1.len() && r1[i].id == id;
    lemma_entry_of(r1, i);
    let h = r1[i].node;
    assert(tracker_owned(s1, r1[i].node));
    assert(slot(s1, h) == frame_slot(t0.registry, s0, snap, base, r1, h));
}

/// Invalid-pose idempotence, one frame. An active device that reports no
/// valid pose, or for which no snapshot came at all, keeps its node, and the
/// node stays exactly as it was.
pub proof fn lemma_held_node_is_unchanged(
    t0: SyncState,
    s0: Seq<Option<Node>>,
    frame: Option<Seq<DeviceSample>>,
    base: BaseFrameOffset,
    t1: SyncState,
    s1: Seq<Option<Node>>,
    report: FrameView,
    id: DeviceId,
)
    requires
        in_sync(t0.registry, s0),
        frame_outcome(t0, s0, frame, base, t1, s1, report),
        registered(t0.registry, id),
        holds_still(frame, id),
    ensures
        registered(t1.registry, id),
        entry_of(t1.registry, id) == entry_of(t0.registry, id),
        slot(s1, entry_of(t0.registry, id).node) == slot(s0, entry_of(t0.registry, id).node),
{
    match frame {
        Some(snap) => {
            let r0 = t0.registry;
            lemma_survivor_keeps_node(t0, s0, snap, base, t1, s1, report, id);
            lemma_node_after_frame(t0, s0, snap, base, t1, s1, report, id);
            let i = choose|i: int| #![trigger r0[i]] 0 <= i < r0.len() && r0[i].id == id;
            lemma_entry_of(r0, i);
            assert(tracker_owned(s0, r0[i].node));
        },
        None => {},
    }
}

/// Invalid-pose idempotence. An active device that reports no valid pose
/// for any number of frames in a row keeps its node through all of them, and
/// the node's transform after each of them is the one it had before the
/// first.
pub proof fn lemma_invalid_pose_is_idempotent(
    states: Seq<SyncState>,
    scenes: Seq<Seq<Option<Node>>>,
    frames: Seq<Option<Seq<DeviceSample>>>,
    bases: Seq<BaseFrameOffset>,
    reports: Seq<FrameView>,
    id: DeviceId,
    k: int,
)
    requires
        is_run(states, scenes, frames, bases, reports),
        registered(states[0].registry, id),
        forall|j: int| 0 <= j < frames.len() ==> holds_still(#[trigger] frames[j], id),
        0 <= k <= frames.len(),
    ensures
        registered(states[k].registry, id),
        entry_of(states[k].registry, id) == entry_of(states[0].registry, id),
        slot(scenes[k], entry_of(states[0].registry, id).node) == slot(
            scenes[0],
            entry_of(states[0].registry, id).node,
        ),
    decreases k,
{
    if k > 0 {
        lemma_invalid_pose_is_idempotent(states, scenes, frames, bases, reports, id, k - 1);
        lemma_run_stays_in_sync(states, scenes, frames, bases, reports, k - 1);
        let f = frames[k - 1];
        assert(holds_still(f, id));
        lemma_held_node_is_unchanged(
            states[k - 1],
            scenes[k - 1],
            f,
            bases[k - 1],
            states[k - 1 + 1],
            scenes[k - 1 + 1],
            reports[k - 1],
            id,
        );
    }
}

/// Partial failure isolation. Where in one frame the device `a` appears and
/// gets no node and the device `b` appears and gets one, `b` has an entry,
/// and its node, in a slot that was free, carries `b`'s converted pose (the
/// identity if `b` has no valid pose), while `a` has no entry.
pub proof fn lemma_failure_is_isolated(
    t0: SyncState,
    s0: Seq<Option<Node>>,
    snap: Seq<DeviceSample>,
    base: BaseFrameOffset,
    t1: SyncState,
    s1: Seq<Option<Node>>,
    report: FrameView,
    a: DeviceId,
    b: DeviceId,
)
    requires
        in_sync(t0.registry, s0),
        distinct_samples(snap),
        frame_outcome(t0, s0, Some(snap), base, t1, s1, report),
        report.failed.contains(a),
        report.spawned.contains(b),
    ensures
        !registered(t1.registry, a),
        registered(t1.registry, b),
        slot(s0, entry_of(t1.registry, b).node) is None,
        slot(s1, entry_of(t1.registry, b).node) == Some(
            Node {
                transform: pose_or(sample_of(snap, b).pose, base, Transform::identity_spec()),
                owner: NodeOwner::Tracker,
            },
        ),
{
    let r0 = t0.registry;
    let r1 = t1.registry;
    let kept = survivors(r0, snap);
    let news = arrivals(r0, snap);
    let k = enrolled_count(r0, s0, snap);
    let jb = choose|j: int| 0 <= j < report.spawned.len() && report.spawned[j] == b;
    assert(r1[kept.len() + jb].id == b);
    lemma_entry_of(r1, kept.len() + jb);
    lemma_node_after_frame(t0, s0, snap, base, t1, s1, report, b);
    let ja = choose|j: int| 0 <= j < report.failed.len() && report.failed[j] == a;
    assert(news[k + ja] == a);
    sample_ids(snap).lemma_filter_pred(is_arrival(r0), k + ja);
    assert(!registered(r0, a));
    if registered(r1, a) {
        let c = choose|c: int| #![trigger r1[c]] 0 <= c < r1.len() && r1[c].id == a;
        if c < kept.len() {
            assert(r1.take(kept.len() as int)[c] == r1[c]);
            let i = lemma_survivor(r0, snap, c);
            assert(false);
        } else {
            assert(sample_ids(snap).no_duplicates());
            lemma_filter_distinct(sample_ids(snap), is_arrival(r0));
            assert(report.spawned[c - kept.len()] == news[c - kept.len()]);
            assert(false);
        }
    }
}

/// A connected device without an entry is tried in the frame: it is spawned
/// or it fails, and it is spawned where the scene has a free slot for every
/// arrival. So a device that failed is tried again in the next frame in
/// which it is connected.
pub proof fn lemma_unknown_device_is_tried(
    t0: SyncState,
    s0: Seq<Option<Node>>,
    snap: Seq<DeviceSample>,
    base: BaseFrameOffset,
    t1: SyncState,
    s1: Seq<Option<Node>>,
    report: FrameView,
    id: DeviceId,
)
    requires
        frame_outcome(t0, s0, Some(snap), base, t1, s1, report),
        !registered(t0.registry, id),
        connected(snap, id),
    ensures
        report.spawned.contains(id) || report.failed.contains(id),
        arrivals(t0.registry, snap).len() <= free_count(s0) ==> report.spawned.contains(id),
{
    let r0 = t0.registry;
    let news = arrivals(r0, snap);
    let k = enrolled_count(r0, s0, snap);
    let ids = sample_ids(snap);
    let i = choose|i: int| #![trigger snap[i]] 0 <= i < snap.len() && snap[i].id == id;
    assert(ids[i] == id);
    ids.lemma_filter_contains(is_arrival(r0), i);
    let j = choose|j: int| 0 <= j < news.len() && news[j] == id;
    if j < k {
        assert(report.spawned[j] == id);
    } else {
        assert(report.failed[j - k] == id);
    }
}

/// No cross-talk. A frame leaves every node that no device of the registry
/// owns exactly as it was.
pub proof fn lemma_other_nodes_are_untouched(
    t0: SyncState,
    s0: Seq<Option<Node>>,
    frame: Option<Seq<DeviceSample>>,
    base: BaseFrameOffset,
    t1: SyncState,
    s1: Seq<Option<Node>>,
    report: FrameView,
    h: NodeHandle,
)
    requires
        in_sync(t0.registry, s0),
        frame_outcome(t0, s0, frame, base, t1, s1, report),
        h.0 < s0.len(),
        slot(s0, h) is Some,
        !owns(t0.registry, h),
    ensures
        slot(s1, h) == slot(s0, h),
{
    match frame {
        Some(snap) => {
            let r0 = t0.registry;
            let r1 = t1.registry;
            let kept = survivors(r0, snap);
            assert(slot(s1, h) == frame_slot(r0, s0, snap, base, r1, h));
            if owns(r1, h) {
                let c = owner_index(r1, h);
                assert(r1[c].node == h);
                if c < kept.len() {
                    assert(r1.take(kept.len() as int)[c] == r1[c]);
                    let i = lemma_survivor(r0, snap, c);
                    assert(r0[i].node == h);
                    assert(false);
                } else {
                    assert(false);
                }
            }
        },
        None => {},
    }
}

/// A product divided by its factor gives the other factor back, with nothing
/// to round.
proof fn lemma_div_round_exact(q: int, d: int)
    requires
        d > 0,
    ensures
        div_round_spec(q * d, d) == q,
{
    let x = 2 * (q * d) + d;
    let e = 2 * d;
    assert(x == q * e + d) by (nonlinear_arith)
        requires
            x == 2 * (q * d) + d,
            e == 2 * d,
    ;
    vstd::arithmetic::div_mod::lemma_fundamental_div_mod_converse(x, e, q, d);
}

/// The identity rotation turns no vector.
proof fn lemma_identity_rotates_nothing(v: Vec3)
    ensures
        Quat::identity_spec().rotate_spec(v) == v,
{
    let q = Quat::identity_spec();
    let s = q.scalar_part();
    let d = q.axis_dot(v);
    let nx = s * v.x + 2 * (d * q.x) + 2 * ((q.y * v.z - q.z * v.y) * q.w);
    let ny = s * v.y + 2 * (d * q.y) + 2 * ((q.z * v.x - q.x * v.z) * q.w);
    let nz = s * v.z + 2 * (d * q.z) + 2 * ((q.x * v.y - q.y * v.x) * q.w);
    assert(nx == v.x * 4294967296 && ny == v.y * 4294967296 && nz == v.z * 4294967296)
        by (nonlinear_arith)
        requires
            s == q.w * q.w - q.x * q.x - q.y * q.y - q.z * q.z,
            nx == s * v.x + 2 * (d * q.x) + 2 * ((q.y * v.z - q.z * v.y) * q.w),
            ny == s * v.y + 2 * (d * q.y) + 2 * ((q.z * v.x - q.x * v.z) * q.w),
            nz == s * v.z + 2 * (d * q.z) + 2 * ((q.x * v.y - q.y * v.x) * q.w),
            q.w == 65536,
            q.x == 0,
            q.y == 0,
            q.z == 0,
    ;
    lemma_div_round_exact(v.x as int, 4294967296);
    lemma_div_round_exact(v.y as int, 4294967296);
    lemma_div_round_exact(v.z as int, 4294967296);
    assert(div_round_spec(nx, ONE_SQ as int) == v.x);
    assert(div_round_spec(ny, ONE_SQ as int) == v.y);
    assert(div_round_spec(nz, ONE_SQ as int) == v.z);
}

/// The identity rotation is neutral in a composition, on either side.
proof fn lemma_identity_composes_to_same(q: Quat)
    ensures
        Quat::identity_spec().compose_spec(q) == q,
        q.compose_spec(Quat::identity_spec()) == q,
{
    let e = Quat::identity_spec();
    let lw = e.w * q.w - e.x * q.x - e.y * q.y - e.z * q.z;
    let lx = e.w * q.x + e.x * q.w + e.y * q.z - e.z * q.y;
    let ly = e.w * q.y - e.x * q.z + e.y * q.w + e.z * q.x;
    let lz = e.w * q.z + e.x * q.y - e.y * q.x + e.z * q.w;
    let rw = q.w * e.w - q.x * e.x - q.y * e.y - q.z * e.z;
    let rx = q.w * e.x + q.x * e.w + q.y * e.z - q.z * e.y;
    let ry = q.w * e.y - q.x * e.z + q.y * e.w + q.z * e.x;
    let rz = q.w * e.z + q.x * e.y - q.y * e.x + q.z * e.w;
    assert(lw == q.w * 65536 && lx == q.x * 65536 && ly == q.y * 65536 && lz == q.z * 65536)
        by (nonlinear_arith)
        requires
            lw == e.w * q.w - e.x * q.x - e.y * q.y - e.z * q.z,
            lx == e.w * q.x + e.x * q.w + e.y * q.z - e.z * q.y,
            ly == e.w * q.y - e.x * q.z + e.y * q.w + e.z * q.x,
            lz == e.w * q.z + e.x * q.y - e.y * q.x + e.z * q.w,
            e.w == 65536,
            e.x == 0,
            e.y == 0,
            e.z == 0,
    ;
    assert(rw == q.w * 65536 && rx == q.x * 65536 && ry == q.y * 65536 && rz == q.z * 65536)
        by (nonlinear_arith)
        requires
            rw == q.w * e.w - q.x * e.x - q.y * e.y - q.z * e.z,
            rx == q.w * e.x + q.x * e.w + q.y * e.z - q.z * e.y,
            ry == q.w * e.y - q.x * e.z + q.y * e.w + q.z * e.x,
            rz == q.w * e.z + q.x * e.y - q.y * e.x + q.z * e.w,
            e.w == 65536,
            e.x == 0,
            e.y == 0,
            e.z == 0,
    ;
    lemma_div_round_exact(q.w as int, 65536);
    lemma_div_round_exact(q.x as int, 65536);
    lemma_div_round_exact(q.y as int, 65536);
    lemma_div_round_exact(q.z as int, 65536);
    assert(div_round_spec(lw, ONE as int) == q.w && div_round_spec(rw, ONE as int) == q.w);
    assert(div_round_spec(lx, ONE as int) == q.x && div_round_spec(rx, ONE as int) == q.x);
    assert(div_round_spec(ly, ONE as int) == q.y && div_round_spec(ry, ONE as int) == q.y);
    assert(div_round_spec(lz, ONE as int) == q.z && div_round_spec(rz, ONE as int) == q.z);
}

/// Scaling by one changes no vector.
proof fn lemma_unit_scale_keeps(v: Vec3)
    ensures
        v.scaled_spec(ONE) == v,
{
    let nx = v.x * ONE;
    let ny = v.y * ONE;
    let nz = v.z * ONE;
    lemma_div_round_exact(v.x as int, 65536);
    lemma_div_round_exact(v.y as int, 65536);
    lemma_div_round_exact(v.z as int, 65536);
    assert(div_round_spec(nx, ONE as int) == v.x);
    assert(div_round_spec(ny, ONE as int) == v.y);
    assert(div_round_spec(nz, ONE as int) == v.z);
}

/// The zero vector stays zero under any scale and any rotation.
proof fn lemma_zero_stays(q: Quat, k: i32)
    ensures
        Vec3::zero_spec().scaled_spec(k) == Vec3::zero_spec(),
        q.rotate_spec(Vec3::zero_spec()) == Vec3::zero_spec(),
{
    let v = Vec3::zero_spec();
    let mx = v.x * k;
    let my = v.y * k;
    let mz = v.z * k;
    assert(mx == 0 * 65536 && my == 0 * 65536 && mz == 0 * 65536) by (nonlinear_arith)
        requires
            mx == v.x * k,
            my == v.y * k,
            mz == v.z * k,
            v.x == 0,
            v.y == 0,
            v.z == 0,
    ;
    lemma_div_round_exact(0, 65536);
    assert(div_round_spec(mx, ONE as int) == 0);
    assert(div_round_spec(my, ONE as int) == 0);
    assert(div_round_spec(mz, ONE as int) == 0);
    let s = q.scalar_part();
    let d = q.axis_dot(v);
    let nx = s * v.x + 2 * (d * q.x) + 2 * ((q.y * v.z - q.z * v.y) * q.w);
    let ny = s * v.y + 2 * (d * q.y) + 2 * ((q.z * v.x - q.x * v.z) * q.w);
    let nz = s * v.z + 2 * (d * q.z) + 2 * ((q.x * v.y - q.y * v.x) * q.w);
    assert(nx == 0 * 4294967296 && ny == 0 * 4294967296 && nz == 0 * 4294967296)
        by (nonlinear_arith)
        requires
            d == q.x * v.x + q.y * v.y + q.z * v.z,
            nx == s * v.x + 2 * (d * q.x) + 2 * ((q.y * v.z - q.z * v.y) * q.w),
            ny == s * v.y + 2 * (d * q.y) + 2 * ((q.z * v.x - q.x * v.z) * q.w),
            nz == s * v.z + 2 * (d * q.z) + 2 * ((q.x * v.y - q.y * v.x) * q.w),
            v.x == 0,
            v.y == 0,
            v.z == 0,
    ;
    lemma_div_round_exact(0, 4294967296);
    assert(div_round_spec(nx, ONE_SQ as int) == 0);
    assert(div_round_spec(ny, ONE_SQ as int) == 0);
    assert(div_round_spec(nz, ONE_SQ as int) == 0);
}

/// The identity rotation has length one.
proof fn lemma_identity_is_unit()
    ensures
        Quat::identity_spec().is_unit_spec(),
{
    let e = Quat::identity_spec();
    let n = e.norm_sq_spec();
    assert(n == 4294967296) by (nonlinear_arith)
        requires
            n == e.w * e.w + e.x * e.x + e.y * e.y + e.z * e.z,
            e.w == 65536,
            e.x == 0,
            e.y == 0,
            e.z == 0,
    ;
}

/// The square of a product is the product of the squares.
proof fn lemma_square_of_product(p: int, r: int)
    ensures
        (p * r) * (p * r) == (p * p) * (r * r),
{
    assert((p * r) * (p * r) == (p * p) * (r * r)) by (nonlinear_arith);
}

/// One component of a normalized quaternion: `p` is `c` divided by the
/// length `r / ONE`, rounded. It fits a scalar, and `p * r` squared misses
/// `c * ONE_SQ` squared by little.
proof fn lemma_normalized_component(c: int, n: int, r: int) -> (p: int)
    requires
        0 <= c * c <= n,
        65536 <= r,
        r * r <= n * 4294967296 < (r + 1) * (r + 1),
    ensures
        p == div_round_spec(c * 4294967296, r),
        -200000 <= p <= 200000,
        -(r * (131072 * (r + 1) + r)) <= 2 * ((p * r) * (p * r) - (c * 4294967296) * (c
            * 4294967296)) <= r * (131072 * (r + 1) + r),
{
    let a = c * 4294967296;
    let p = div_round_spec(a, r);
    lemma_div_round_error(a, r);
    let t = p * r;
    let e = t - a;
    assert(-r < 2 * e <= r);
    // the numerator is below ONE * (r + 1) in size
    let b = 65536 * (r + 1);
    assert(a * a < b * b) by (nonlinear_arith)
        requires
            a == c * 4294967296,
            b == 65536 * (r + 1),
            c * c <= n,
            n * 4294967296 < (r + 1) * (r + 1),
    ;
    assert(-b < a < b) by (nonlinear_arith)
        requires
            a * a < b * b,
            b > 0,
    ;
    // so the quotient is small
    assert(-200000 <= p <= 200000) by (nonlinear_arith)
        requires
            t == p * r,
            -r < 2 * (t - a) <= r,
            -b < a < b,
            b == 65536 * (r + 1),
            65536 <= r,
    ;
    // and (a + e)^2 - a^2 = e (2 a + e)
    let g = 2 * a + e;
    assert(-(131072 * (r + 1) + r) <= g <= 131072 * (r + 1) + r);
    assert(t * t - a * a == e * g) by (nonlinear_arith)
        requires
            t == a + e,
            g == 2 * a + e,
    ;
    let bound = 131072 * (r + 1) + r;
    assert(-(r * bound) <= (2 * e) * g <= r * bound) by (nonlinear_arith)
        requires
            -r <= 2 * e <= r,
            -bound <= g <= bound,
            r >= 0,
            bound >= 0,
    ;
    assert((2 * e) * g == 2 * (e * g)) by (nonlinear_arith);
    p
}

/// A normalized quaternion has length one within the tolerance, whatever
/// the quaternion it was made from.
pub proof fn lemma_normalized_is_unit(q: Quat)
    ensures
        q.normalized_spec().is_unit_spec(),
{
    let n = q.norm_sq_spec();
    if n == 0 {
        lemma_identity_is_unit();
    } else {
        let w = q.w as int;
        let x = q.x as int;
        let y = q.y as int;
        let z = q.z as int;
        assert(0 <= w * w && 0 <= x * x && 0 <= y * y && 0 <= z * z) by (nonlinear_arith);
        let m = n * 4294967296;
        lemma_floor_sqrt_exists(m);
        let r = floor_sqrt(m);
        assert(r >= 65536) by (nonlinear_arith)
            requires
                0 <= r,
                m < (r + 1) * (r + 1),
                m >= 4294967296,
        ;
        let pw = lemma_normalized_component(w, n, r);
        let px = lemma_normalized_component(x, n, r);
        let py = lemma_normalized_component(y, n, r);
        let pz = lemma_normalized_component(z, n, r);
        let u = q.normalized_spec();
        assert(u.w == pw && u.x == px && u.y == py && u.z == pz);
        let aw = w * 4294967296;
        let ax = x * 4294967296;
        let ay = y * 4294967296;
        let az = z * 4294967296;
        let total = aw * aw + ax * ax + ay * ay + az * az;
        assert(total == 4294967296 * m) by (nonlinear_arith)
            requires
                total == aw * aw + ax * ax + ay * ay + az * az,
                aw == w * 4294967296,
                ax == x * 4294967296,
                ay == y * 4294967296,
                az == z * 4294967296,
                m == (w * w + x * x + y * y + z * z) * 4294967296,
        ;
        let k = pw * pw + px * px + py * py + pz * pz;
        let turned = (pw * r) * (pw * r) + (px * r) * (px * r) + (py * r) * (py * r) + (pz * r) * (
        pz * r);
        let rr = r * r;
        lemma_square_of_product(pw, r);
        lemma_square_of_product(px, r);
        lemma_square_of_product(py, r);
        lemma_square_of_product(pz, r);
        let sw = pw * pw;
        let sx = px * px;
        let sy = py * py;
        let sz = pz * pz;
        assert(k * rr == sw * rr + sx * rr + sy * rr + sz * rr) by (nonlinear_arith)
            requires
                k == sw + sx + sy + sz,
        ;
        assert(turned == k * rr);
        let slack = r * (131072 * (r + 1) + r);
        // within 2 * slack of `total`, which lies between ONE_SQ * r^2 and
        // ONE_SQ * (r + 1)^2
        assert(-(2 * slack) <= turned - total <= 2 * slack);
        assert(4294967296 * rr <= total < 4294967296 * rr + 4294967296 * (2 * r + 1))
            by (nonlinear_arith)
            requires
                total == 4294967296 * m,
                rr == r * r,
                r * r <= m < (r + 1) * (r + 1),
        ;
        assert(2 * slack + 4294967296 * (2 * r + 1) <= 8388608 * rr) by (nonlinear_arith)
            requires
                slack == r * (131072 * (r + 1) + r),
                rr == r * r,
                r >= 65536,
        ;
        assert(-8388608 <= k - 4294967296 <= 8388608) by (nonlinear_arith)
            requires
                turned == k * rr,
                -(8388608 * rr) <= turned - 4294967296 * rr <= 8388608 * rr,
                rr > 0,
        ;
        assert(u.norm_sq_spec() == k);
    }
}

/// What the converter makes of a device's orientation has length one within
/// the tolerance.
pub proof fn lemma_steadied_is_unit(q: Quat)
    ensures
        q.steadied_spec().is_unit_spec(),
{
    lemma_normalized_is_unit(q);
}

/// Transform fidelity. Under the identity offset a valid pose with a unit
/// orientation converts to itself: position and orientation come out as they
/// went in.
pub proof fn lemma_identity_offset_is_lossless(raw: RawPose)
    requires
        raw.valid,
        raw.orientation.is_unit_spec(),
    ensures
        convert_spec(raw, BaseFrameOffset::identity_spec()) == Some(
            Transform { position: raw.position, orientation: raw.orientation },
        ),
{
    lemma_unit_scale_keeps(raw.position);
    lemma_identity_rotates_nothing(raw.position);
    lemma_identity_composes_to_same(raw.orientation);
}

/// The identity pose lands on the offset: a device at the pose source's
/// origin, not rotated, gets the offset's own position and orientation.
pub proof fn lemma_identity_pose_lands_on_offset(base: BaseFrameOffset)
    ensures
        convert_spec(
            RawPose {
                position: Vec3::zero_spec(),
                orientation: Quat::identity_spec(),
                valid: true,
            },
            base,
        ) == Some(Transform { position: base.position, orientation: base.orientation }),
{
    lemma_zero_stays(base.orientation, base.unit_scale);
    lemma_identity_is_unit();
    lemma_identity_composes_to_same(base.orientation);
}

} // verus!
