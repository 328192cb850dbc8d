//! Device identities and the per-frame snapshot of the pose source.

use vstd::prelude::*;
use crate::pose::RawPose;

verus! {

/// The key that the pose source gives a tracked unit for as long as it stays
/// connected. A unit that reconnects may come back under another key.
#[derive(Clone, Copy, Debug, PartialEq, Eq, Hash, Structural)]
pub struct DeviceId(pub u32);

/// What kind of unit a device is.
#[derive(Clone, Copy, Debug, PartialEq, Eq, Structural)]
pub enum DeviceRole {
    Hmd,
    Controller,
    GenericTracker,
}

/// What the pose source reports of one connected device in one frame.
#[derive(Clone, Copy, Debug, PartialEq, Eq, Structural)]
pub struct DeviceSample {
    pub id: DeviceId,
    pub role: DeviceRole,
    pub pose: RawPose,
}

/// One frame's consistent reading of the pose source: the connected devices,
/// each with its sample. Its view is the sequence of samples in the order in
/// which they were recorded.
pub struct Snapshot {
    samples: Vec<DeviceSample>,
}

/// The device `id` is among the samples `s`.
pub open spec fn connected(s: Seq<DeviceSample>, id: DeviceId) -> bool {
    exists|i: int| #![trigger s[i]] 0 <= i < s.len() && s[i].id == id
}

/// No device has two samples in `s`.
pub open spec fn distinct_samples(s: Seq<DeviceSample>) -> bool {
    forall|i: int, j: int| #![trigger s[i], s[j]] 0 <= i < j < s.len() ==> s[i].id != s[j].id
}

/// The sample of a connected device.
pub open spec fn sample_of(s: Seq<DeviceSample>, id: DeviceId) -> DeviceSample {
    s[choose|i: int| #![trigger s[i]] 0 <= i < s.len() && s[i].id == id]
}

/// The ids of the samples, in their order.
pub open spec fn sample_ids(s: Seq<DeviceSample>) -> Seq<DeviceId> {
    s.map_values(|x: DeviceSample| x.id)
}

/// Among distinct samples, the sample of a device is the one that carries
/// its id.
pub proof fn lemma_sample_of(s: Seq<DeviceSample>, i: int)
    requires
        distinct_samples(s),
        0 <= i < s.len(),
    ensures
        connected(s, s[i].id),
        sample_of(s, s[i].id) == s[i],
{
    let id = s[i].id;
    let j = choose|j: int| #![trigger s[j]] 0 <= j < s.len() && s[j].id == id;
    if j < i {
        assert(s[j].id != s[i].id);
    } else if i < j {
        assert(s[i].id != s[j].id);
    }
}

impl View for Snapshot {
    type V = Seq<DeviceSample>;

    closed spec fn view(&self) -> Seq<DeviceSample> {
        self.samples@
    }
}

impl Snapshot {
    /// Each connected device has one sample.
    pub open spec fn wf(&self) -> bool {
        distinct_samples(self@)
    }

    /// The snapshot in which no device is connected.
    pub fn new() -> (snapshot: Snapshot)
        ensures
            snapshot@ == Seq::<DeviceSample>::empty(),
            snapshot.wf(),
    {
        Snapshot { samples: Vec::new() }
    }

    pub fn len(&self) -> (n: usize)
        ensures
            n == self@.len(),
    {
        self.samples.len()
    }

    /// The `i`-th sample in the order of recording.
    pub fn get(&self, i: usize) -> (r: Option<DeviceSample>)
        ensures
            r == (if i < self@.len() {
                Some(self@[i as int])
            } else {
                None
            }),
    {
        if i < self.samples.len() {
            Some(self.samples[i])
        } else {
            None
        }
    }

    /// The sample of the device `id`, if it is connected.
    pub fn find(&self, id: DeviceId) -> (r: Option<DeviceSample>)
        requires
            self.wf(),
        ensures
            r == (if connected(self@, id) {
                Some(sample_of(self@, id))
            } else {
                None
            }),
    {
        let mut i: usize = 0;
        while i < self.samples.len()
            invariant
                i <= self.samples.len(),
                distinct_samples(self.samples@),
                forall|j: int| 0 <= j < i ==> (#[trigger] self.samples@[j]).id != id,
            decreases self.samples.len() - i,
        {
            if self.samples[i].id.0 == id.0 {
                proof {
                    lemma_sample_of(self.samples@, i as int);
                }
                return Some(self.samples[i]);
            }
            i = i + 1;
        }
        None
    }

    pub fn contains(&self, id: DeviceId) -> (b: bool)
        requires
            self.wf(),
        ensures
            b == connected(self@, id),
    {
        self.find(id).is_some()
    }

    /// Records the sample of one more device. A second sample for a device
    /// that has one is refused: the snapshot stays as it is and the result
    /// is `false`.
    pub fn record(&mut self, sample: DeviceSample) -> (added: bool)
        requires
            old(self).wf(),
        ensures
            final(self).wf(),
            added == !connected(old(self)@, sample.id),
            final(self)@ == (if added {
                old(self)@.push(sample)
            } else {
                old(self)@
            }),
    {
        if self.contains(sample.id) {
            false
        } else {
            self.samples.push(sample);
            true
        }
    }
}

} // verus!
