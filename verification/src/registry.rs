//! The device registry: which scene node belongs to which connected device.
//!
//! The registry is the only writer of that mapping. Reconciling it with a
//! frame's snapshot creates a node for every device that has appeared and
//! destroys the node of every device that has gone, and touches no other
//! node of the scene.

use vstd::prelude::*;
use crate::device::{
    connected, distinct_samples, lemma_sample_of, sample_ids, sample_of, DeviceId, DeviceRole,
    DeviceSample, Snapshot,
};
use crate::pose::Transform;
use crate::scene::{free_count, slot, tracker_owned, Node, NodeHandle, NodeOwner, SceneGraph};

verus! {

/// One entry of the registry: a connected device and the node it owns.
#[derive(Clone, Copy, Debug, PartialEq, Eq, Structural)]
pub struct TrackedDevice {
    pub id: DeviceId,
    pub role: DeviceRole,
    pub node: NodeHandle,
}

/// Where a device stands in its life cycle.
#[derive(Clone, Copy, Debug, PartialEq, Eq, Structural)]
pub enum DeviceState {
    /// Not connected: it has no entry and no node.
    Unknown,
    /// Connected: it has an entry, and a node that follows its pose.
    Active,
}

/// What one reconciliation did, each list in the order in which it happened.
#[derive(Debug)]
pub struct Reconciliation {
    /// The devices that appeared and got a node.
    pub spawned: Vec<DeviceId>,
    /// The devices that appeared and got none, the scene being full.
    pub failed: Vec<DeviceId>,
    /// The devices that went, and whose nodes were destroyed.
    pub despawned: Vec<DeviceId>,
}

/// The registry. Its view is the sequence of entries, oldest first.
pub struct DeviceRegistry {
    entries: Vec<TrackedDevice>,
}

/// The device `id` has an entry in `r`.
pub open spec fn registered(r: Seq<TrackedDevice>, id: DeviceId) -> bool {
    exists|i: int| #![trigger r[i]] 0 <= i < r.len() && r[i].id == id
}

/// The node `h` belongs to an entry of `r`.
pub open spec fn owns(r: Seq<TrackedDevice>, h: NodeHandle) -> bool {
    exists|i: int| #![trigger r[i]] 0 <= i < r.len() && r[i].node == h
}

/// The entry of a registered device.
pub open spec fn entry_of(r: Seq<TrackedDevice>, id: DeviceId) -> TrackedDevice {
    r[choose|i: int| #![trigger r[i]] 0 <= i < r.len() && r[i].id == id]
}

/// The place in `r` of the entry that an owned node belongs to.
pub open spec fn owner_index(r: Seq<TrackedDevice>, h: NodeHandle) -> int {
    choose|i: int| #![trigger r[i]] 0 <= i < r.len() && r[i].node == h
}

/// The entry that an owned node belongs to.
pub open spec fn owner_of(r: Seq<TrackedDevice>, h: NodeHandle) -> TrackedDevice {
    r[owner_index(r, h)]
}

/// The node of a device, `None` for a device without an entry.
pub open spec fn node_of(r: Seq<TrackedDevice>, id: DeviceId) -> Option<NodeHandle> {
    if registered(r, id) {
        Some(entry_of(r, id).node)
    } else {
        None
    }
}

/// No two entries share a device, and no two share a node.
pub open spec fn distinct_devices(r: Seq<TrackedDevice>) -> bool {
    forall|i: int, j: int|
        #![trigger r[i], r[j]]
        0 <= i < j < r.len() ==> r[i].id != r[j].id && r[i].node != r[j].node
}

/// The registry `r` and the scene `s` agree: the entries of `r` and the
/// nodes of `s` that the tracker owns correspond one to one.
pub open spec fn in_sync(r: Seq<TrackedDevice>, s: Seq<Option<Node>>) -> bool {
    &&& distinct_devices(r)
    &&& forall|i: int| 0 <= i < r.len() ==> tracker_owned(s, (#[trigger] r[i]).node)
    &&& forall|h: NodeHandle| #[trigger] tracker_owned(s, h) ==> owns(r, h)
}

/// The ids of the entries, in their order.
pub open spec fn device_ids(r: Seq<TrackedDevice>) -> Seq<DeviceId> {
    r.map_values(|e: TrackedDevice| e.id)
}

/// Picks the ids without an entry in `r`.
pub open spec fn is_arrival(r: Seq<TrackedDevice>) -> spec_fn(DeviceId) -> bool {
    |id: DeviceId| !registered(r, id)
}

/// Picks the ids without a sample in `snap`.
pub open spec fn is_departure(snap: Seq<DeviceSample>) -> spec_fn(DeviceId) -> bool {
    |id: DeviceId| !connected(snap, id)
}

/// Picks the entries whose device has a sample in `snap`.
pub open spec fn is_survivor(snap: Seq<DeviceSample>) -> spec_fn(TrackedDevice) -> bool {
    |e: TrackedDevice| connected(snap, e.id)
}

/// The connected devices that have no entry yet, in the snapshot's order.
pub open spec fn arrivals(r: Seq<TrackedDevice>, snap: Seq<DeviceSample>) -> Seq<DeviceId> {
    sample_ids(snap).filter(is_arrival(r))
}

/// The devices with an entry that are no longer connected, oldest first.
pub open spec fn departures(r: Seq<TrackedDevice>, snap: Seq<DeviceSample>) -> Seq<DeviceId> {
    device_ids(r).filter(is_departure(snap))
}

/// The entries whose device is still connected, oldest first.
pub open spec fn survivors(r: Seq<TrackedDevice>, snap: Seq<DeviceSample>) -> Seq<
    TrackedDevice,
> {
    r.filter(is_survivor(snap))
}

/// How many of the arrivals get a node: as many as the scene has free slots.
pub open spec fn enrolled_count(
    r: Seq<TrackedDevice>,
    s: Seq<Option<Node>>,
    snap: Seq<DeviceSample>,
) -> int {
    if arrivals(r, snap).len() <= free_count(s) {
        arrivals(r, snap).len() as int
    } else {
        free_count(s) as int
    }
}

/// The node that a device gets when it appears.
pub open spec fn fresh_node() -> Node {
    Node { transform: Transform::identity_spec(), owner: NodeOwner::Tracker }
}

/// The entries of `r` from `start` on are those of the enrolled arrivals in
/// their order, each with the role that its sample gives and a node in the
/// lowest slot that was free in `s0` and that no arrival before it has
/// taken.
pub open spec fn fresh_entries(
    r: Seq<TrackedDevice>,
    start: int,
    ids: Seq<DeviceId>,
    snap: Seq<DeviceSample>,
    s0: Seq<Option<Node>>,
) -> bool {
    &&& r.len() == start + ids.len()
    &&& forall|i: int|
        start <= i < r.len() ==> {
            &&& (#[trigger] r[i]).id == ids[i - start]
            &&& connected(snap, r[i].id)
            &&& r[i].role == sample_of(snap, r[i].id).role
            &&& r[i].node.0 < s0.len()
            &&& s0[r[i].node.0 as int] is None
        }
    &&& forall|i: int, x: NodeHandle|
        start <= i < r.len() && x.0 < (#[trigger] r[i]).node.0 && (#[trigger] slot(s0, x)) is None
            ==> taken_before(r, start, i, x)
}

/// One of the entries of `r` from `start` up to `i` owns the node `x`.
pub open spec fn taken_before(r: Seq<TrackedDevice>, start: int, i: int, x: NodeHandle) -> bool {
    exists|j: int| #![trigger r[j]] start <= j < i && r[j].node == x
}

/// What a reconciliation of the registry `r0` in the scene `s0` with the
/// snapshot `snap` reports, and the registry `r1` that it leaves.
///
/// The arrivals are enrolled in the snapshot's order as long as the scene has
/// a free slot, and the others fail. Every departure is dropped. The new
/// registry holds the survivors, in their old order and with their old
/// nodes, and after them the enrolled arrivals.
pub open spec fn membership(
    r0: Seq<TrackedDevice>,
    s0: Seq<Option<Node>>,
    snap: Seq<DeviceSample>,
    r1: Seq<TrackedDevice>,
    spawned: Seq<DeviceId>,
    failed: Seq<DeviceId>,
    despawned: Seq<DeviceId>,
) -> bool {
    let k = enrolled_count(r0, s0, snap);
    let kept = survivors(r0, snap);
    &&& spawned == arrivals(r0, snap).take(k)
    &&& failed == arrivals(r0, snap).skip(k)
    &&& despawned == departures(r0, snap)
    &&& r1.take(kept.len() as int) == kept
    &&& fresh_entries(r1, kept.len() as int, spawned, snap, s0)
}

/// The node `h` belongs to a device of `r0` that `snap` no longer lists.
pub open spec fn departed(r0: Seq<TrackedDevice>, snap: Seq<DeviceSample>, h: NodeHandle) -> bool {
    owns(r0, h) && !connected(snap, owner_of(r0, h).id)
}

/// What the slot `h` of the scene `s0` holds once the arrivals have their
/// nodes: a fresh node where an entry of `r` owns a slot that was free, and
/// what it held before everywhere else.
pub open spec fn enrolled_slot(
    s0: Seq<Option<Node>>,
    r: Seq<TrackedDevice>,
    h: NodeHandle,
) -> Option<Node> {
    if slot(s0, h) is None && owns(r, h) {
        Some(fresh_node())
    } else {
        slot(s0, h)
    }
}

/// What the slot `h` holds after a reconciliation: nothing where the node of
/// a departed device was, a fresh node where an arrival got its node, and
/// what it held before everywhere else.
pub open spec fn reconciled_slot(
    r0: Seq<TrackedDevice>,
    s0: Seq<Option<Node>>,
    snap: Seq<DeviceSample>,
    r1: Seq<TrackedDevice>,
    h: NodeHandle,
) -> Option<Node> {
    if departed(r0, snap, h) {
        None
    } else {
        enrolled_slot(s0, r1, h)
    }
}

/// The scene `s1` is the scene `s0` after a reconciliation that took the
/// registry from `r0` to `r1`.
pub open spec fn scene_reconciled(
    r0: Seq<TrackedDevice>,
    s0: Seq<Option<Node>>,
    snap: Seq<DeviceSample>,
    r1: Seq<TrackedDevice>,
    s1: Seq<Option<Node>>,
) -> bool {
    &&& s1.len() == s0.len()
    &&& forall|h: NodeHandle|
        h.0 < s0.len() ==> #[trigger] slot(s1, h) == reconciled_slot(r0, s0, snap, r1, h)
}

/// Among distinct entries, the entry of a device is the one that carries its
/// id, and the owner of a node the one that carries the node.
pub proof fn lemma_entry_of(r: Seq<TrackedDevice>, i: int)
    requires
        distinct_devices(r),
        0 <= i < r.len(),
    ensures
        registered(r, r[i].id),
        entry_of(r, r[i].id) == r[i],
        owns(r, r[i].node),
        owner_index(r, r[i].node) == i,
        owner_of(r, r[i].node) == r[i],
{
    let id = r[i].id;
    let j = choose|j: int| #![trigger r[j]] 0 <= j < r.len() && r[j].id == id;
    if j < i {
        assert(r[j].id != r[i].id);
    } else if i < j {
        assert(r[i].id != r[j].id);
    }
    let h = r[i].node;
    let k = choose|k: int| #![trigger r[k]] 0 <= k < r.len() && r[k].node == h;
    if k < i {
        assert(r[k].node != r[i].node);
    } else if i < k {
        assert(r[i].node != r[k].node);
    }
}

/// An entry more owns one node more.
proof fn lemma_owns_push(r: Seq<TrackedDevice>, e: TrackedDevice, h: NodeHandle)
    ensures
        owns(r.push(e), h) <==> (owns(r, h) || e.node == h),
{
    let p = r.push(e);
    if owns(r, h) {
        let i = choose|i: int| #![trigger r[i]] 0 <= i < r.len() && r[i].node == h;
        assert(p[i] == r[i]);
    }
    if e.node == h {
        assert(p[r.len() as int] == e);
    }
    if owns(p, h) {
        let i = choose|i: int| #![trigger p[i]] 0 <= i < p.len() && p[i].node == h;
        if i < r.len() {
            assert(r[i] == p[i]);
        }
    }
}

/// A filter that every element passes keeps the sequence.
proof fn lemma_filter_keeps_all<A>(s: Seq<A>, p: spec_fn(A) -> bool)
    requires
        forall|i: int| 0 <= i < s.len() ==> p(#[trigger] s[i]),
    ensures
        s.filter(p) == s,
    decreases s.len(),
{
    if s.len() == 0 {
        s.lemma_filter_len(p);
        assert(s.filter(p) =~= s);
    } else {
        let t = s.drop_last();
        lemma_filter_keeps_all(t, p);
        t.lemma_filter_push(s.last(), p);
        assert(t.push(s.last()) =~= s);
    }
}

/// A filter that no element passes leaves nothing.
proof fn lemma_filter_drops_all<A>(s: Seq<A>, p: spec_fn(A) -> bool)
    requires
        forall|i: int| 0 <= i < s.len() ==> !p(#[trigger] s[i]),
    ensures
        s.filter(p) == Seq::<A>::empty(),
    decreases s.len(),
{
    if s.len() == 0 {
        s.lemma_filter_len(p);
        assert(s.filter(p) =~= Seq::<A>::empty());
    } else {
        let t = s.drop_last();
        lemma_filter_drops_all(t, p);
        t.lemma_filter_push(s.last(), p);
        assert(t.push(s.last()) =~= s);
    }
}

/// What enrolling the arrivals of `snap` makes of the registry `r0` and the
/// scene `s0`.
spec fn enrolled(
    r0: Seq<TrackedDevice>,
    s0: Seq<Option<Node>>,
    snap: Seq<DeviceSample>,
    r: Seq<TrackedDevice>,
    s: Seq<Option<Node>>,
    spawned: Seq<DeviceId>,
    failed: Seq<DeviceId>,
) -> bool {
    let k = enrolled_count(r0, s0, snap);
    &&& spawned == arrivals(r0, snap).take(k)
    &&& failed == arrivals(r0, snap).skip(k)
    &&& r.take(r0.len() as int) == r0
    &&& fresh_entries(r, r0.len() as int, spawned, snap, s0)
    &&& in_sync(r, s)
    &&& s.len() == s0.len()
    &&& forall|h: NodeHandle| h.0 < s0.len() ==> #[trigger] slot(s, h) == enrolled_slot(s0, r, h)
}

/// What dropping the departures of `snap` makes of the registry `r` and the
/// scene `s`.
spec fn retired(
    r: Seq<TrackedDevice>,
    s: Seq<Option<Node>>,
    snap: Seq<DeviceSample>,
    r1: Seq<TrackedDevice>,
    s1: Seq<Option<Node>>,
    despawned: Seq<DeviceId>,
) -> bool {
    &&& despawned == departures(r, snap)
    &&& r1 == survivors(r, snap)
    &&& in_sync(r1, s1)
    &&& s1.len() == s.len()
    &&& forall|h: NodeHandle|
        h.0 < s.len() ==> #[trigger] slot(s1, h) == (if departed(r, snap, h) {
            None
        } else {
            slot(s, h)
        })
}

/// The node `h` belongs to one of the first `j` entries of `r`, and to a
/// device that `snap` no longer lists.
spec fn departed_before(
    r: Seq<TrackedDevice>,
    snap: Seq<DeviceSample>,
    j: int,
    h: NodeHandle,
) -> bool {
    departed(r, snap, h) && owner_index(r, h) < j
}

/// Enrolling the arrivals leaves the departed devices what they were: every
/// arrival is connected.
proof fn lemma_departed_same(
    r0: Seq<TrackedDevice>,
    rm: Seq<TrackedDevice>,
    snap: Seq<DeviceSample>,
    h: NodeHandle,
)
    requires
        distinct_devices(r0),
        distinct_devices(rm),
        r0.len() <= rm.len(),
        rm.take(r0.len() as int) == r0,
        forall|i: int| r0.len() <= i < rm.len() ==> connected(snap, (#[trigger] rm[i]).id),
    ensures
        departed(rm, snap, h) == departed(r0, snap, h),
{
    if departed(r0, snap, h) {
        let b = owner_index(r0, h);
        assert(r0[b].node == h);
        assert(rm.take(r0.len() as int)[b] == rm[b]);
        lemma_entry_of(rm, b);
    }
    if departed(rm, snap, h) {
        let b = owner_index(rm, h);
        assert(rm[b].node == h);
        assert(b < r0.len());
        assert(rm.take(r0.len() as int)[b] == rm[b]);
        lemma_entry_of(r0, b);
    }
}

/// Enrolling the arrivals and then dropping the departures is a
/// reconciliation.
proof fn lemma_reconciled(
    r0: Seq<TrackedDevice>,
    s0: Seq<Option<Node>>,
    snap: Seq<DeviceSample>,
    rm: Seq<TrackedDevice>,
    sm: Seq<Option<Node>>,
    r1: Seq<TrackedDevice>,
    s1: Seq<Option<Node>>,
    spawned: Seq<DeviceId>,
    failed: Seq<DeviceId>,
    despawned: Seq<DeviceId>,
)
    requires
        in_sync(r0, s0),
        enrolled(r0, s0, snap, rm, sm, spawned, failed),
        retired(rm, sm, snap, r1, s1, despawned),
    ensures
        membership(r0, s0, snap, r1, spawned, failed, despawned),
        scene_reconciled(r0, s0, snap, r1, s1),
{
    let n0 = r0.len() as int;
    let fresh = rm.skip(n0);
    let kept = survivors(r0, snap);
    assert(rm =~= r0 + fresh) by {
        assert forall|i: int| 0 <= i < n0 implies rm[i] == r0[i] by {
            assert(rm.take(n0)[i] == rm[i]);
        }
    }
    assert forall|i: int| 0 <= i < fresh.len() implies is_survivor(snap)(#[trigger] fresh[i]) by {
        assert(fresh[i] == rm[n0 + i]);
    }
    Seq::filter_distributes_over_add(r0, fresh, is_survivor(snap));
    lemma_filter_keeps_all(fresh, is_survivor(snap));
    assert(r1 == kept + fresh);
    assert(r1.take(kept.len() as int) =~= kept);
    assert forall|i: int| kept.len() <= i < r1.len() implies {
        &&& (#[trigger] r1[i]).id == spawned[i - kept.len()]
        &&& connected(snap, r1[i].id)
        &&& r1[i].role == sample_of(snap, r1[i].id).role
        &&& r1[i].node.0 < s0.len()
        &&& s0[r1[i].node.0 as int] is None
    } by {
        assert(r1[i] == rm[i - kept.len() + n0]);
    }
    assert forall|i: int, x: NodeHandle|
        kept.len() <= i < r1.len() && x.0 < (#[trigger] r1[i]).node.0 && (#[trigger] slot(
            s0,
            x,
        )) is None implies taken_before(r1, kept.len() as int, i, x) by {
        let im = i - kept.len() + n0;
        assert(r1[i] == rm[im]);
        assert(taken_before(rm, n0, im, x));
        let t = choose|t: int| #![trigger rm[t]] n0 <= t < im && rm[t].node == x;
        assert(r1[t - n0 + kept.len()] == rm[t]);
    }
    let ids0 = device_ids(r0);
    let idsf = device_ids(fresh);
    assert(device_ids(rm) =~= ids0 + idsf);
    assert forall|i: int| 0 <= i < idsf.len() implies !is_departure(snap)(#[trigger] idsf[i]) by {
        assert(idsf[i] == fresh[i].id);
    }
    Seq::filter_distributes_over_add(ids0, idsf, is_departure(snap));
    lemma_filter_drops_all(idsf, is_departure(snap));
    assert(despawned =~= departures(r0, snap));
    assert forall|h: NodeHandle| h.0 < s0.len() implies #[trigger] slot(s1, h) == reconciled_slot(
        r0,
        s0,
        snap,
        r1,
        h,
    ) by {
        assert(slot(sm, h) == enrolled_slot(s0, rm, h));
        lemma_departed_same(r0, rm, snap, h);
        if !departed(r0, snap, h) && slot(s0, h) is None {
            if owns(rm, h) {
                assert(tracker_owned(s1, h));
            }
            if owns(r1, h) {
                let c = owner_index(r1, h);
                assert(tracker_owned(s1, r1[c].node));
            }
        }
    }
}

impl View for DeviceRegistry {
    type V = Seq<TrackedDevice>;

    closed spec fn view(&self) -> Seq<TrackedDevice> {
        self.entries@
    }
}

impl DeviceRegistry {
    /// No two entries share a device or a node.
    pub open spec fn wf(&self) -> bool {
        distinct_devices(self@)
    }

    /// The registry without entries.
    pub fn new() -> (registry: DeviceRegistry)
        ensures
            registry@ == Seq::<TrackedDevice>::empty(),
            registry.wf(),
    {
        DeviceRegistry { entries: Vec::new() }
    }

    pub fn len(&self) -> (n: usize)
        ensures
            n == self@.len(),
    {
        self.entries.len()
    }

    /// The `i`-th entry, oldest first.
    pub fn get(&self, i: usize) -> (r: Option<TrackedDevice>)
        ensures
            r == (if i < self@.len() {
                Some(self@[i as int])
            } else {
                None
            }),
    {
        if i < self.entries.len() {
            Some(self.entries[i])
        } else {
            None
        }
    }

    /// The entry of the device `id`, if it has one.
    pub fn entry(&self, id: DeviceId) -> (r: Option<TrackedDevice>)
        requires
            self.wf(),
        ensures
            r == (if registered(self@, id) {
                Some(entry_of(self@, id))
            } else {
                None
            }),
    {
        let mut i: usize = 0;
        while i < self.entries.len()
            invariant
                i <= self.entries.len(),
                distinct_devices(self.entries@),
                forall|j: int| 0 <= j < i ==> (#[trigger] self.entries@[j]).id != id,
            decreases self.entries.len() - i,
        {
            if self.entries[i].id.0 == id.0 {
                proof {
                    lemma_entry_of(self.entries@, i as int);
                }
                return Some(self.entries[i]);
            }
            i = i + 1;
        }
        None
    }

    /// The node of the device `id`, if it has one.
    pub fn lookup(&self, id: DeviceId) -> (r: Option<NodeHandle>)
        requires
            self.wf(),
        ensures
            r == node_of(self@, id),
    {
        match self.entry(id) {
            Some(e) => Some(e.node),
            None => None,
        }
    }

    /// Gives every arrival a node, in the snapshot's order, until the scene
    /// is full.
    fn enroll(&mut self, scene: &mut SceneGraph, snapshot: &Snapshot) -> (out: (
        Vec<DeviceId>,
        Vec<DeviceId>,
    ))
        requires
            in_sync(old(self)@, old(scene)@),
            snapshot.wf(),
        ensures
            enrolled(
                old(self)@,
                old(scene)@,
                snapshot@,
                final(self)@,
                final(scene)@,
                out.0@,
                out.1@,
            ),
    {
        let ghost r0 = self.entries@;
        let ghost s0 = scene@;
        let ghost snap = snapshot@;
        let ghost ids = sample_ids(snap);
        let mut spawned: Vec<DeviceId> = Vec::new();
        let mut failed: Vec<DeviceId> = Vec::new();
        let n: usize = snapshot.len();
        let mut i: usize = 0;
        proof {
            ids.take(0).lemma_filter_len(is_arrival(r0));
            assert(spawned@ + failed@ =~= ids.take(0).filter(is_arrival(r0)));
        }
        while i < n
            invariant
                i <= n,
                n == snap.len(),
                snap == snapshot@,
                ids == sample_ids(snap),
                distinct_samples(snap),
                in_sync(r0, s0),
                in_sync(self.entries@, scene@),
                scene@.len() == s0.len(),
                self.entries@.len() == r0.len() + spawned@.len(),
                forall|j: int| 0 <= j < r0.len() ==> #[trigger] self.entries@[j] == r0[j],
                forall|j: int|
                    r0.len() <= j < self.entries@.len() ==> {
                        &&& (#[trigger] self.entries@[j]).id == spawned@[j - r0.len()]
                        &&& connected(snap, self.entries@[j].id)
                        &&& self.entries@[j].role == sample_of(snap, self.entries@[j].id).role
                        &&& self.entries@[j].node.0 < s0.len()
                        &&& s0[self.entries@[j].node.0 as int] is None
                    },
                forall|j: int, k: int|
                    r0.len() <= j < self.entries@.len() && i <= k < n ==> (
                    #[trigger] self.entries@[j]).id != (#[trigger] snap[k]).id,
                forall|j: int, x: NodeHandle|
                    r0.len() <= j < self.entries@.len() && x.0 < (
                    #[trigger] self.entries@[j]).node.0 && (#[trigger] slot(s0, x)) is None
                        ==> taken_before(self.entries@, r0.len() as int, j, x),
                spawned@ + failed@ == ids.take(i as int).filter(is_arrival(r0)),
                free_count(scene@) + spawned@.len() == free_count(s0),
                failed@.len() > 0 ==> free_count(scene@) == 0,
                forall|h: NodeHandle|
                    h.0 < s0.len() ==> #[trigger] slot(scene@, h) == enrolled_slot(
                        s0,
                        self.entries@,
                        h,
                    ),
            decreases n - i,
        {
            let sample: DeviceSample = snapshot.get(i).unwrap();
            let ghost before = self.entries@;
            let ghost scene_before = scene@;
            let ghost all_before = spawned@ + failed@;
            proof {
                assert(ids.take(i + 1) =~= ids.take(i as int).push(sample.id));
                ids.take(i as int).lemma_filter_push(sample.id, is_arrival(r0));
                lemma_sample_of(snap, i as int);
                if registered(before, sample.id) {
                    let j = choose|j: int|
                        #![trigger before[j]]
                        0 <= j < before.len() && before[j].id == sample.id;
                    if j >= r0.len() {
                        assert(before[j].id != snap[i as int].id);
                    }
                    assert(r0[j] == before[j]);
                }
                if registered(r0, sample.id) {
                    let j = choose|j: int| #![trigger r0[j]] 0 <= j < r0.len() && r0[j].id == sample.id;
                    assert(before[j] == r0[j]);
                }
                assert(registered(before, sample.id) == registered(r0, sample.id));
            }
            let known: Option<TrackedDevice> = self.entry(sample.id);
            if known.is_none() {
                let node = Node { transform: Transform::identity(), owner: NodeOwner::Tracker };
                match scene.place(node) {
                    Some(h) => {
                        let e = TrackedDevice { id: sample.id, role: sample.role, node: h };
                        self.entries.push(e);
                        spawned.push(sample.id);
                        proof {
                            let r = self.entries@;
                            let s = scene@;
                            assert(failed@.len() == 0);
                            assert(spawned@ + failed@ =~= all_before.push(sample.id));
                            assert(s0[h.0 as int] is None) by {
                                assert(slot(scene_before, h) == enrolled_slot(s0, before, h));
                            }
                            assert forall|a: int, b: int|
                                #![trigger r[a], r[b]]
                                0 <= a < b < r.len() implies r[a].id != r[b].id && r[a].node
                                != r[b].node by {
                                if b == before.len() {
                                    assert(r[a] == before[a]);
                                    assert(tracker_owned(scene_before, before[a].node));
                                } else {
                                    assert(r[a] == before[a]);
                                    assert(r[b] == before[b]);
                                }
                            }
                            assert forall|a: int| 0 <= a < r.len() implies tracker_owned(
                                s,
                                (#[trigger] r[a]).node,
                            ) by {
                                if a < before.len() {
                                    assert(r[a] == before[a]);
                                    assert(tracker_owned(scene_before, before[a].node));
                                }
                            }
                            assert forall|hh: NodeHandle| #[trigger]
                                tracker_owned(s, hh) implies owns(r, hh) by {
                                lemma_owns_push(before, e, hh);
                                if hh != h {
                                    assert(tracker_owned(scene_before, hh));
                                }
                            }
                            assert forall|x: NodeHandle| x.0 < s0.len() implies #[trigger] slot(
                                s,
                                x,
                            ) == enrolled_slot(s0, r, x) by {
                                lemma_owns_push(before, e, x);
                                assert(slot(scene_before, x) == enrolled_slot(s0, before, x));
                            }
                            assert forall|j: int, x: NodeHandle|
                                r0.len() <= j < r.len() && x.0 < (#[trigger] r[j]).node.0 && (
                                #[trigger] slot(s0, x)) is None implies taken_before(
                                r,
                                r0.len() as int,
                                j,
                                x,
                            ) by {
                                if j < before.len() {
                                    assert(r[j] == before[j]);
                                    assert(taken_before(before, r0.len() as int, j, x));
                                    let t = choose|t: int|
                                        #![trigger before[t]]
                                        r0.len() <= t < j && before[t].node == x;
                                    assert(r[t] == before[t]);
                                } else {
                                    assert(slot(scene_before, x) == enrolled_slot(s0, before, x));
                                    assert(scene_before[x.0 as int] is Some);
                                    assert(owns(before, x));
                                    let t = owner_index(before, x);
                                    assert(before[t].node == x);
                                    if t < r0.len() {
                                        assert(tracker_owned(s0, r0[t].node));
                                    }
                                    assert(r[t] == before[t]);
                                }
                            }
                        }
                    },
                    None => {
                        failed.push(sample.id);
                        proof {
                            assert(spawned@ + failed@ =~= all_before.push(sample.id));
                        }
                    },
                }
            }
            i = i + 1;
        }
        proof {
            let r = self.entries@;
            let news = arrivals(r0, snap);
            let k = enrolled_count(r0, s0, snap);
            assert(ids.take(n as int) =~= ids);
            assert(spawned@ + failed@ == news);
            assert(spawned@.len() == k);
            assert(spawned@ =~= news.take(k));
            assert(failed@ =~= news.skip(k));
            assert(r.take(r0.len() as int) =~= r0);
        }
        (spawned, failed)
    }

    /// Destroys the node of every departure and drops its entry.
    fn retire(&mut self, scene: &mut SceneGraph, snapshot: &Snapshot) -> (despawned: Vec<
        DeviceId,
    >)
        requires
            in_sync(old(self)@, old(scene)@),
            snapshot.wf(),
        ensures
            retired(
                old(self)@,
                old(scene)@,
                snapshot@,
                final(self)@,
                final(scene)@,
                despawned@,
            ),
    {
        let ghost r = self.entries@;
        let ghost s = scene@;
        let ghost snap = snapshot@;
        let ghost ids = device_ids(r);
        let mut kept: Vec<TrackedDevice> = Vec::new();
        let mut despawned: Vec<DeviceId> = Vec::new();
        let m: usize = self.entries.len();
        let mut j: usize = 0;
        proof {
            r.take(0).lemma_filter_len(is_survivor(snap));
            ids.take(0).lemma_filter_len(is_departure(snap));
            assert(kept@ =~= r.take(0).filter(is_survivor(snap)));
            assert(despawned@ =~= ids.take(0).filter(is_departure(snap)));
        }
        while j < m
            invariant
                j <= m,
                m == r.len(),
                self.entries@ == r,
                snap == snapshot@,
                ids == device_ids(r),
                distinct_samples(snap),
                in_sync(r, s),
                scene@.len() == s.len(),
                kept@ == r.take(j as int).filter(is_survivor(snap)),
                despawned@ == ids.take(j as int).filter(is_departure(snap)),
                distinct_devices(kept@),
                forall|a: int, b: int|
                    0 <= a < kept@.len() && j <= b < r.len() ==> (#[trigger] kept@[a]).id != (
                    #[trigger] r[b]).id && kept@[a].node != r[b].node,
                forall|a: int| 0 <= a < kept@.len() ==> tracker_owned(s, (#[trigger] kept@[a]).node),
                forall|a: int|
                    0 <= a < kept@.len() ==> !departed(r, snap, (#[trigger] kept@[a]).node),
                forall|b: int|
                    0 <= b < j && connected(snap, (#[trigger] r[b]).id) ==> owns(kept@, r[b].node),
                forall|h: NodeHandle|
                    h.0 < s.len() ==> #[trigger] slot(scene@, h) == (if departed_before(
                        r,
                        snap,
                        j as int,
                        h,
                    ) {
                        None
                    } else {
                        slot(s, h)
                    }),
            decreases m - j,
        {
            let e: TrackedDevice = self.entries[j];
            let ghost kept_before = kept@;
            let ghost scene_before = scene@;
            proof {
                assert(r.take(j + 1) =~= r.take(j as int).push(e));
                r.take(j as int).lemma_filter_push(e, is_survivor(snap));
                assert(ids.take(j + 1) =~= ids.take(j as int).push(e.id));
                ids.take(j as int).lemma_filter_push(e.id, is_departure(snap));
                lemma_entry_of(r, j as int);
                assert(tracker_owned(s, r[j as int].node));
            }
            if snapshot.contains(e.id) {
                kept.push(e);
                proof {
                    let k = kept@;
                    assert forall|a: int, b: int|
                        #![trigger k[a], k[b]]
                        0 <= a < b < k.len() implies k[a].id != k[b].id && k[a].node
                        != k[b].node by {
                        if b == kept_before.len() {
                            assert(k[a] == kept_before[a]);
                            assert(kept_before[a].id != r[j as int].id);
                        } else {
                            assert(k[a] == kept_before[a]);
                            assert(k[b] == kept_before[b]);
                        }
                    }
                    assert forall|a: int, b: int|
                        0 <= a < k.len() && j + 1 <= b < r.len() implies (#[trigger] k[a]).id != (
                        #[trigger] r[b]).id && k[a].node != r[b].node by {
                        if a < kept_before.len() {
                            assert(k[a] == kept_before[a]);
                        }
                    }
                    assert forall|a: int| 0 <= a < k.len() implies tracker_owned(
                        s,
                        (#[trigger] k[a]).node,
                    ) && !departed(r, snap, k[a].node) by {
                        if a < kept_before.len() {
                            assert(k[a] == kept_before[a]);
                        }
                    }
                    assert forall|b: int|
                        0 <= b < j + 1 && connected(snap, (#[trigger] r[b]).id) implies owns(
                        k,
                        r[b].node,
                    ) by {
                        lemma_owns_push(kept_before, e, r[b].node);
                    }
                    assert forall|h: NodeHandle| h.0 < s.len() implies #[trigger] slot(scene@, h)
                        == (if departed_before(r, snap, j + 1, h) {
                        None
                    } else {
                        slot(s, h)
                    }) by {
                        assert(slot(scene_before, h) == (if departed_before(r, snap, j as int, h) {
                            None
                        } else {
                            slot(s, h)
                        }));
                    }
                }
            } else {
                proof {
                    assert(slot(scene_before, e.node) == (if departed_before(
                        r,
                        snap,
                        j as int,
                        e.node,
                    ) {
                        None
                    } else {
                        slot(s, e.node)
                    }));
                }
                scene.clear(e.node);
                despawned.push(e.id);
                proof {
                    assert forall|h: NodeHandle| h.0 < s.len() implies #[trigger] slot(scene@, h)
                        == (if departed_before(r, snap, j + 1, h) {
                        None
                    } else {
                        slot(s, h)
                    }) by {
                        assert(slot(scene_before, h) == (if departed_before(r, snap, j as int, h) {
                            None
                        } else {
                            slot(s, h)
                        }));
                        if h != e.node && owns(r, h) {
                            let b = owner_index(r, h);
                            assert(r[b].node == h);
                        }
                    }
                }
            }
            j = j + 1;
        }
        self.entries = kept;
        proof {
            let r1 = self.entries@;
            let s1 = scene@;
            assert(r.take(m as int) =~= r);
            assert(ids.take(m as int) =~= ids);
            assert forall|a: int| 0 <= a < r1.len() implies tracker_owned(
                s1,
                (#[trigger] r1[a]).node,
            ) by {
                let h = r1[a].node;
                assert(tracker_owned(s, h));
                assert(!departed(r, snap, h));
                assert(slot(s1, h) == (if departed_before(r, snap, m as int, h) {
                    None
                } else {
                    slot(s, h)
                }));
            }
            assert forall|h: NodeHandle| #[trigger] tracker_owned(s1, h) implies owns(r1, h) by {
                assert(slot(s1, h) == (if departed_before(r, snap, m as int, h) {
                    None
                } else {
                    slot(s, h)
                }));
                assert(tracker_owned(s, h));
                assert(owns(r, h));
                let b = owner_index(r, h);
                assert(r[b].node == h);
                assert(connected(snap, r[b].id));
            }
            assert forall|h: NodeHandle| h.0 < s.len() implies #[trigger] slot(s1, h) == (
            if departed(r, snap, h) {
                None
            } else {
                slot(s, h)
            }) by {
                assert(slot(s1, h) == (if departed_before(r, snap, m as int, h) {
                    None
                } else {
                    slot(s, h)
                }));
            }
        }
        despawned
    }

    /// Whether no two entries share a device or a node.
    pub fn is_well_formed(&self) -> (b: bool)
        ensures
            b == self.wf(),
    {
        let n: usize = self.entries.len();
        let mut j: usize = 0;
        while j < n
            invariant
                j <= n,
                n == self.entries@.len(),
                forall|a: int, b: int|
                    #![trigger self.entries@[a], self.entries@[b]]
                    0 <= a < b < j ==> self.entries@[a].id != self.entries@[b].id
                        && self.entries@[a].node != self.entries@[b].node,
            decreases n - j,
        {
            let mut i: usize = 0;
            while i < j
                invariant
                    i <= j < n,
                    n == self.entries@.len(),
                    forall|a: int|
                        #![trigger self.entries@[a]]
                        0 <= a < i ==> self.entries@[a].id != self.entries@[j as int].id
                            && self.entries@[a].node != self.entries@[j as int].node,
                decreases j - i,
            {
                if self.entries[i].id.0 == self.entries[j].id.0 || self.entries[i].node.0
                    == self.entries[j].node.0 {
                    assert(!(self.entries@[i as int].id != self.entries@[j as int].id
                        && self.entries@[i as int].node != self.entries@[j as int].node));
                    return false;
                }
                i = i + 1;
            }
            j = j + 1;
        }
        true
    }

    /// The entry that owns the node `h`, if one does.
    pub fn owner(&self, h: NodeHandle) -> (r: Option<TrackedDevice>)
        requires
            self.wf(),
        ensures
            r == (if owns(self@, h) {
                Some(owner_of(self@, h))
            } else {
                None
            }),
    {
        let mut i: usize = 0;
        while i < self.entries.len()
            invariant
                i <= self.entries.len(),
                distinct_devices(self.entries@),
                forall|j: int| 0 <= j < i ==> (#[trigger] self.entries@[j]).node != h,
            decreases self.entries.len() - i,
        {
            if self.entries[i].node.0 == h.0 {
                proof {
                    lemma_entry_of(self.entries@, i as int);
                }
                return Some(self.entries[i]);
            }
            i = i + 1;
        }
        None
    }

    /// Brings the registry and the scene in line with the connected devices
    /// of `snapshot`.
    ///
    /// First every connected device without an entry gets a node and an
    /// entry, in the snapshot's order. Where the scene is full the device
    /// gets neither and is listed as failed; it stays unknown, so the next
    /// reconciliation tries again, and the devices after it are still looked
    /// at. Then the node of every device that is no longer connected is
    /// destroyed and its entry removed. A device that stays connected keeps
    /// its node, and no node of the host's is touched.
    pub fn reconcile(&mut self, scene: &mut SceneGraph, snapshot: &Snapshot) -> (out:
        Reconciliation)
        requires
            in_sync(old(self)@, old(scene)@),
            snapshot.wf(),
        ensures
            membership(
                old(self)@,
                old(scene)@,
                snapshot@,
                final(self)@,
                out.spawned@,
                out.failed@,
                out.despawned@,
            ),
            scene_reconciled(old(self)@, old(scene)@, snapshot@, final(self)@, final(scene)@),
            in_sync(final(self)@, final(scene)@),
    {
        let ghost r0 = self.entries@;
        let ghost s0 = scene@;
        let (spawned, failed) = self.enroll(scene, snapshot);
        let ghost rm = self.entries@;
        let ghost sm = scene@;
        let despawned = self.retire(scene, snapshot);
        proof {
            lemma_reconciled(
                r0,
                s0,
                snapshot@,
                rm,
                sm,
                self.entries@,
                scene@,
                spawned@,
                failed@,
                despawned@,
            );
        }
        Reconciliation { spawned, failed, despawned }
    }

    /// Where the device `id` stands: active exactly when it has an entry.
    pub fn state_of(&self, id: DeviceId) -> (state: DeviceState)
        requires
            self.wf(),
        ensures
            state == (if registered(self@, id) {
                DeviceState::Active
            } else {
                DeviceState::Unknown
            }),
    {
        match self.entry(id) {
            Some(_) => DeviceState::Active,
            None => DeviceState::Unknown,
        }
    }
}

} // verus!
