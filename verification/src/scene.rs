//! The scene graph's node storage, as far as tracking touches it.
//!
//! A scene is a table of slots; a node lives in one slot and its handle is
//! the slot's index. Every node is tagged with its owner. The host creates,
//! moves and destroys its own nodes through the public methods here, which
//! refuse to touch a node that the tracker owns.

use vstd::prelude::*;
use crate::pose::Transform;

verus! {

/// Names one node of a scene: the index of its slot.
#[derive(Clone, Copy, Debug, PartialEq, Eq, Structural)]
pub struct NodeHandle(pub usize);

/// Who created a node, and who alone may write its transform or destroy it.
#[derive(Clone, Copy, Debug, PartialEq, Eq, Structural)]
pub enum NodeOwner {
    Host,
    Tracker,
}

#[derive(Clone, Copy, Debug, PartialEq, Eq, Structural)]
pub struct Node {
    pub transform: Transform,
    pub owner: NodeOwner,
}

#[derive(Clone, Copy, Debug, PartialEq, Eq, Structural)]
pub enum SceneError {
    /// Every slot holds a node.
    AtCapacity,
    /// The handle names no node.
    NoSuchNode,
    /// The node belongs to the tracker; the host may not change it.
    OwnedByTracker,
}

/// The slot table. Its view is the sequence of slots, `None` for a free one.
pub struct SceneGraph {
    slots: Vec<Option<Node>>,
}

/// What the slot that `h` names holds in the scene `s`.
pub open spec fn slot(s: Seq<Option<Node>>, h: NodeHandle) -> Option<Node> {
    s[h.0 as int]
}

/// The handle names a node of the scene `s`.
pub open spec fn live(s: Seq<Option<Node>>, h: NodeHandle) -> bool {
    h.0 < s.len() && s[h.0 as int] is Some
}

/// The handle names a node of `s` that the tracker owns.
pub open spec fn tracker_owned(s: Seq<Option<Node>>, h: NodeHandle) -> bool {
    live(s, h) && s[h.0 as int]->0.owner == NodeOwner::Tracker
}

/// The number of free slots of `s`.
pub open spec fn free_count(s: Seq<Option<Node>>) -> nat
    decreases s.len(),
{
    if s.len() == 0 {
        0
    } else {
        free_count(s.drop_last()) + if s.last() is None {
            1nat
        } else {
            0nat
        }
    }
}

/// No slot is counted free exactly when every slot holds a node.
pub proof fn lemma_free_count_zero(s: Seq<Option<Node>>)
    ensures
        free_count(s) == 0 <==> (forall|i: int| 0 <= i < s.len() ==> s[i] is Some),
    decreases s.len(),
{
    if s.len() > 0 {
        let t = s.drop_last();
        lemma_free_count_zero(t);
        if free_count(s) == 0 {
            assert forall|i: int| 0 <= i < s.len() implies s[i] is Some by {
                if i < s.len() - 1 {
                    assert(t[i] == s[i]);
                }
            }
        } else if s.last() is Some {
            let i = choose|i: int| 0 <= i < t.len() && !(t[i] is Some);
            assert(t[i] == s[i]);
        }
    }
}

/// Writing one slot changes the count of free slots by what the slot held
/// and what it holds now.
pub proof fn lemma_free_count_update(s: Seq<Option<Node>>, i: int, v: Option<Node>)
    requires
        0 <= i < s.len(),
    ensures
        free_count(s.update(i, v)) + (if s[i] is None {
            1int
        } else {
            0int
        }) == free_count(s) + (if v is None {
            1int
        } else {
            0int
        }),
    decreases s.len(),
{
    let u = s.update(i, v);
    if i == s.len() - 1 {
        assert(u.drop_last() =~= s.drop_last());
    } else {
        assert(u.drop_last() =~= s.drop_last().update(i, v));
        lemma_free_count_update(s.drop_last(), i, v);
    }
}

impl View for SceneGraph {
    type V = Seq<Option<Node>>;

    closed spec fn view(&self) -> Seq<Option<Node>> {
        self.slots@
    }
}

impl SceneGraph {
    /// An empty scene with room for `capacity` nodes.
    pub fn new(capacity: usize) -> (scene: SceneGraph)
        ensures
            scene@ == Seq::new(capacity as nat, |i: int| None::<Node>),
    {
        let mut slots: Vec<Option<Node>> = Vec::new();
        let mut i: usize = 0;
        while i < capacity
            invariant
                i <= capacity,
                slots@ == Seq::new(i as nat, |j: int| None::<Node>),
            decreases capacity - i,
        {
            slots.push(None);
            i = i + 1;
        }
        SceneGraph { slots }
    }

    pub fn capacity(&self) -> (n: usize)
        ensures
            n == self@.len(),
    {
        self.slots.len()
    }

    /// The number of nodes that can still be created.
    pub fn free_slots(&self) -> (n: usize)
        ensures
            n == free_count(self@),
    {
        let mut n: usize = 0;
        let mut i: usize = 0;
        while i < self.slots.len()
            invariant
                i <= self.slots.len(),
                n == free_count(self.slots@.take(i as int)),
                n <= i,
            decreases self.slots.len() - i,
        {
            assert(self.slots@.take(i + 1).drop_last() =~= self.slots@.take(i as int));
            if self.slots[i].is_none() {
                n = n + 1;
            }
            i = i + 1;
        }
        assert(self.slots@.take(i as int) =~= self.slots@);
        n
    }

    /// The node that `h` names, if it names one.
    pub fn node(&self, h: NodeHandle) -> (n: Option<Node>)
        ensures
            n == (if live(self@, h) {
                self@[h.0 as int]
            } else {
                None
            }),
    {
        if h.0 < self.slots.len() {
            self.slots[h.0]
        } else {
            None
        }
    }

    pub fn contains(&self, h: NodeHandle) -> (b: bool)
        ensures
            b == live(self@, h),
    {
        self.node(h).is_some()
    }

    pub fn is_tracked(&self, h: NodeHandle) -> (b: bool)
        ensures
            b == tracker_owned(self@, h),
    {
        match self.node(h) {
            Some(n) => match n.owner {
                NodeOwner::Tracker => true,
                NodeOwner::Host => false,
            },
            None => false,
        }
    }

    /// The transform of the node that `h` names, if it names one.
    pub fn transform_of(&self, h: NodeHandle) -> (t: Option<Transform>)
        ensures
            t == (if live(self@, h) {
                Some(self@[h.0 as int]->0.transform)
            } else {
                None
            }),
    {
        match self.node(h) {
            Some(n) => Some(n.transform),
            None => None,
        }
    }

    /// Puts `node` into the first free slot; `None`, and nothing changed,
    /// where there is none.
    pub(crate) fn place(&mut self, node: Node) -> (r: Option<NodeHandle>)
        ensures
            r is Some <==> free_count(old(self)@) > 0,
            match r {
                Some(h) => {
                    &&& h.0 < old(self)@.len()
                    &&& old(self)@[h.0 as int] is None
                    &&& forall|j: int| 0 <= j < h.0 ==> old(self)@[j] is Some
                    &&& final(self)@ == old(self)@.update(h.0 as int, Some(node))
                    &&& free_count(final(self)@) == free_count(old(self)@) - 1
                },
                None => final(self)@ == old(self)@,
            },
    {
        let mut i: usize = 0;
        while i < self.slots.len()
            invariant
                i <= self.slots.len(),
                self.slots@ == old(self).slots@,
                forall|j: int| 0 <= j < i ==> self.slots@[j] is Some,
            decreases self.slots.len() - i,
        {
            if self.slots[i].is_none() {
                proof {
                    lemma_free_count_zero(self.slots@);
                    lemma_free_count_update(self.slots@, i as int, Some(node));
                }
                self.slots.set(i, Some(node));
                return Some(NodeHandle(i));
            }
            i = i + 1;
        }
        proof {
            lemma_free_count_zero(self.slots@);
        }
        None
    }

    /// Frees the slot of a node.
    pub(crate) fn clear(&mut self, h: NodeHandle)
        requires
            live(old(self)@, h),
        ensures
            final(self)@ == old(self)@.update(h.0 as int, None),
            free_count(final(self)@) == free_count(old(self)@) + 1,
    {
        proof {
            lemma_free_count_update(self.slots@, h.0 as int, None);
        }
        self.slots.set(h.0, None);
    }

    /// Replaces the transform of a node and keeps its owner.
    pub(crate) fn write(&mut self, h: NodeHandle, transform: Transform)
        requires
            live(old(self)@, h),
        ensures
            final(self)@ == old(self)@.update(
                h.0 as int,
                Some(Node { transform, owner: old(self)@[h.0 as int]->0.owner }),
            ),
            free_count(final(self)@) == free_count(old(self)@),
    {
        let owner: NodeOwner = match self.slots[h.0] {
            Some(n) => n.owner,
            None => NodeOwner::Host,
        };
        proof {
            lemma_free_count_update(self.slots@, h.0 as int, Some(Node { transform, owner }));
        }
        self.slots.set(h.0, Some(Node { transform, owner }));
    }

    /// Creates a node of the host's in the first free slot.
    ///
    /// Fails with [`SceneError::AtCapacity`], and changes nothing, exactly
    /// when no slot is free.
    pub fn create_node(&mut self, transform: Transform) -> (r: Result<NodeHandle, SceneError>)
        ensures
            r is Ok <==> free_count(old(self)@) > 0,
            match r {
                Ok(h) => {
                    &&& h.0 < old(self)@.len()
                    &&& old(self)@[h.0 as int] is None
                    &&& forall|j: int| 0 <= j < h.0 ==> old(self)@[j] is Some
                    &&& final(self)@ == old(self)@.update(
                        h.0 as int,
                        Some(Node { transform, owner: NodeOwner::Host }),
                    )
                },
                Err(e) => e == SceneError::AtCapacity && final(self)@ == old(self)@,
            },
    {
        match self.place(Node { transform, owner: NodeOwner::Host }) {
            Some(h) => Ok(h),
            None => Err(SceneError::AtCapacity),
        }
    }

    /// Destroys a node of the host's.
    ///
    /// Fails, and changes nothing, with [`SceneError::NoSuchNode`] where `h`
    /// names no node and with [`SceneError::OwnedByTracker`] where it names
    /// one of the tracker's.
    pub fn destroy_node(&mut self, h: NodeHandle) -> (r: Result<(), SceneError>)
        ensures
            r == host_access(old(self)@, h),
            final(self)@ == (if r is Ok {
                old(self)@.update(h.0 as int, None)
            } else {
                old(self)@
            }),
    {
        if !self.contains(h) {
            Err(SceneError::NoSuchNode)
        } else if self.is_tracked(h) {
            Err(SceneError::OwnedByTracker)
        } else {
            self.clear(h);
            Ok(())
        }
    }

    /// Replaces the transform of a node of the host's.
    ///
    /// Fails, and changes nothing, with [`SceneError::NoSuchNode`] where `h`
    /// names no node and with [`SceneError::OwnedByTracker`] where it names
    /// one of the tracker's.
    pub fn set_transform(&mut self, h: NodeHandle, transform: Transform) -> (r: Result<
        (),
        SceneError,
    >)
        ensures
            r == host_access(old(self)@, h),
            final(self)@ == (if r is Ok {
                old(self)@.update(h.0 as int, Some(Node { transform, owner: NodeOwner::Host }))
            } else {
                old(self)@
            }),
    {
        if !self.contains(h) {
            Err(SceneError::NoSuchNode)
        } else if self.is_tracked(h) {
            Err(SceneError::OwnedByTracker)
        } else {
            self.write(h, transform);
            Ok(())
        }
    }
}

/// Whether the host may change the node that `h` names, and why not.
pub open spec fn host_access(s: Seq<Option<Node>>, h: NodeHandle) -> Result<(), SceneError> {
    if !live(s, h) {
        Err(SceneError::NoSuchNode)
    } else if tracker_owned(s, h) {
        Err(SceneError::OwnedByTracker)
    } else {
        Ok(())
    }
}

} // verus!
