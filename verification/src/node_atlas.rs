//! The node atlas: a bounded cache that maps terrain nodes to storage slots.
//!
//! The atlas owns a fixed number of slots. A node that a view requires is
//! given a record and a slot from the free pool; a node that no view requires
//! any more loses both. Each record tracks which attachments of the node have
//! finished loading, and the atlas queues an event whenever a node becomes
//! fully loaded or is unloaded.
//!
//! The behaviour is stated over [`AtlasView`], the mathematical model of the
//! atlas: every operation of [`NodeAtlas`] is specified as a function from one
//! model value to the next, and the invariant [`AtlasView::wf`] is proved to
//! be kept by each of them.

use crate::node_id::{AtlasIndex, AttachmentIndex, NodeId};
use std::collections::HashMap;
use vstd::prelude::*;
use vstd::relations::injective_on;
use vstd::set_lib::lemma_map_size;

verus! {

broadcast use vstd::std_specs::hash::group_hash_axioms;

/// The lifecycle of a node that has a record in the atlas.
#[derive(Clone, Copy, Debug, PartialEq, Eq, Structural)]
pub enum NodeState {
    /// The node has a slot, and no load has been issued for it yet.
    Requested,
    /// Loads have been issued, and at least one attachment is still missing.
    Loading,
    /// Every attachment of the node is resident.
    Loaded,
}

/// The request could not be met because no slot of the atlas is free.
#[derive(Clone, Copy, Debug, PartialEq, Eq, Structural)]
pub struct AtlasFull {
    /// The node that was turned away.
    pub node: NodeId,
    /// The number of slots of the atlas, all of them taken.
    pub capacity: u16,
}

/// What the atlas knows of one resident node, as a mathematical value.
pub struct RecordView {
    /// Where the node is in its lifecycle.
    pub state: NodeState,
    /// The slot that the node owns.
    pub atlas_index: AtlasIndex,
    /// For each configured attachment, whether it has finished loading.
    pub loaded: Seq<bool>,
}

impl RecordView {
    /// Whether every attachment has finished loading.
    pub open spec fn complete(self) -> bool {
        forall|i: int| 0 <= i < self.loaded.len() ==> #[trigger] self.loaded[i]
    }
}

/// The mathematical model of a [`NodeAtlas`].
pub struct AtlasView {
    /// The number of slots.
    pub capacity: nat,
    /// The number of attachments that each node consists of.
    pub attachment_count: nat,
    /// The record of each resident node.
    pub records: Map<NodeId, RecordView>,
    /// The slots that no node owns. The last one is handed out next.
    pub free: Seq<AtlasIndex>,
    /// The nodes that became fully loaded since the events were last drained.
    pub load_events: Seq<NodeId>,
    /// The nodes that were released since the events were last drained.
    pub unload_events: Seq<NodeId>,
}

impl AtlasView {
    /// The atlas with `capacity` free slots and no resident node. The pool is
    /// ordered so that slot 0 is handed out first.
    pub open spec fn empty(capacity: nat, attachment_count: nat) -> AtlasView {
        AtlasView {
            capacity,
            attachment_count,
            records: Map::empty(),
            free: Seq::new(capacity, |i: int| (capacity - 1 - i) as AtlasIndex),
            load_events: Seq::empty(),
            unload_events: Seq::empty(),
        }
    }

    /// Whether a record is consistent with the configuration of the atlas:
    /// its slot exists, it has one flag per attachment, and it is `Loaded`
    /// exactly when every flag is set.
    pub open spec fn record_wf(self, record: RecordView) -> bool {
        &&& record.atlas_index < self.capacity
        &&& record.loaded.len() == self.attachment_count
        &&& record.state == NodeState::Loaded <==> record.complete()
    }

    /// The invariant of the atlas.
    ///
    /// Free and owned slots add up to the capacity, no slot is free twice or
    /// free and owned at once, and no two records own the same slot.
    pub open spec fn wf(self) -> bool {
        &&& self.capacity <= 0xFFFF
        &&& self.records.dom().finite()
        &&& self.free.len() + self.records.dom().len() == self.capacity
        &&& self.free.no_duplicates()
        &&& forall|i: int| 0 <= i < self.free.len() ==> (#[trigger] self.free[i]) < self.capacity
        &&& forall|n: NodeId|
            self.records.contains_key(n) ==> self.record_wf(#[trigger] self.records[n])
        &&& forall|n: NodeId, i: int|
            self.records.contains_key(n) && 0 <= i < self.free.len() ==> (
            #[trigger] self.records[n]).atlas_index != #[trigger] self.free[i]
        &&& forall|a: NodeId, b: NodeId|
            self.records.contains_key(a) && self.records.contains_key(b) && a != b ==> (
            #[trigger] self.records[a]).atlas_index != (#[trigger] self.records[b]).atlas_index
    }

    /// The slots that some record owns.
    pub open spec fn occupied(self) -> Set<AtlasIndex> {
        self.records.dom().map(|n: NodeId| self.records[n].atlas_index)
    }

    /// The record that a newly requested node gets. With no attachment
    /// configured there is nothing to wait for, so the node is loaded at once.
    pub open spec fn fresh_record(self, slot: AtlasIndex) -> RecordView {
        RecordView {
            state: if self.attachment_count == 0 {
                NodeState::Loaded
            } else {
                NodeState::Requested
            },
            atlas_index: slot,
            loaded: Seq::new(self.attachment_count, |i: int| false),
        }
    }

    /// The atlas after `node` was requested.
    ///
    /// A node that has a record keeps it, and nothing changes. Otherwise,
    /// with the pool empty nothing changes either; else the node takes the
    /// last slot of the pool.
    pub open spec fn request(self, node: NodeId) -> AtlasView {
        if self.records.contains_key(node) || self.free.len() == 0 {
            self
        } else {
            AtlasView {
                records: self.records.insert(node, self.fresh_record(self.free.last())),
                free: self.free.drop_last(),
                load_events: if self.attachment_count == 0 {
                    self.load_events.push(node)
                } else {
                    self.load_events
                },
                ..self
            }
        }
    }

    /// What a request for `node` reports: `Ok(true)` for a new record,
    /// `Ok(false)` for a node that had one, and the error where no slot is
    /// left for a node that had none.
    pub open spec fn request_outcome(self, node: NodeId) -> Result<bool, AtlasFull> {
        if self.records.contains_key(node) {
            Ok(false)
        } else if self.free.len() == 0 {
            Err(AtlasFull { node, capacity: self.capacity as u16 })
        } else {
            Ok(true)
        }
    }

    /// The atlas after `node` was released: its record is gone, whatever its
    /// state was, its slot is back in the pool, and the release is queued as
    /// an event. A node without a record changes nothing.
    pub open spec fn release(self, node: NodeId) -> AtlasView {
        if !self.records.contains_key(node) {
            self
        } else {
            AtlasView {
                records: self.records.remove(node),
                free: self.free.push(self.records[node].atlas_index),
                unload_events: self.unload_events.push(node),
                ..self
            }
        }
    }

    /// The atlas after the loads of `node` were issued: a record in state
    /// `Requested` moves to `Loading`, and nothing else changes.
    pub open spec fn start_loading(self, node: NodeId) -> AtlasView {
        if self.records.contains_key(node) && self.records[node].state == NodeState::Requested {
            AtlasView {
                records: self.records.insert(
                    node,
                    RecordView { state: NodeState::Loading, ..self.records[node] },
                ),
                ..self
            }
        } else {
            self
        }
    }

    /// The record of a node after its attachment `index` finished loading.
    pub open spec fn marked_record(record: RecordView, index: int) -> RecordView {
        let loaded = record.loaded.update(index, true);
        let marked = RecordView { loaded, ..record };
        RecordView {
            state: if marked.complete() {
                NodeState::Loaded
            } else {
                record.state
            },
            ..marked
        }
    }

    /// The atlas after attachment `index` of `node` finished loading.
    ///
    /// For a node without a record, or an attachment that is not configured,
    /// nothing changes. Otherwise the flag is set; where that was the last
    /// one missing, the node becomes `Loaded` and this is queued as an event.
    pub open spec fn mark_attachment_loaded(self, node: NodeId, index: AttachmentIndex) -> AtlasView {
        if !self.records.contains_key(node) || index >= self.attachment_count {
            self
        } else {
            let before = self.records[node];
            let after = Self::marked_record(before, index as int);
            AtlasView {
                records: self.records.insert(node, after),
                load_events: if after.state == NodeState::Loaded && before.state
                    != NodeState::Loaded {
                    self.load_events.push(node)
                } else {
                    self.load_events
                },
                ..self
            }
        }
    }

    /// The atlas after its load events were handed out.
    pub open spec fn without_load_events(self) -> AtlasView {
        AtlasView { load_events: Seq::empty(), ..self }
    }

    /// The atlas after its unload events were handed out.
    pub open spec fn without_unload_events(self) -> AtlasView {
        AtlasView { unload_events: Seq::empty(), ..self }
    }

    /// The slot of `node`, if it has a record.
    pub open spec fn slot_of(self, node: NodeId) -> Option<AtlasIndex> {
        if self.records.contains_key(node) {
            Some(self.records[node].atlas_index)
        } else {
            None
        }
    }

    /// The state of `node`, if it has a record.
    pub open spec fn state_of(self, node: NodeId) -> Option<NodeState> {
        if self.records.contains_key(node) {
            Some(self.records[node].state)
        } else {
            None
        }
    }

    /// Whether `node` has a record and every attachment of it is resident.
    pub open spec fn is_loaded(self, node: NodeId) -> bool {
        self.records.contains_key(node) && self.records[node].state == NodeState::Loaded
    }
}

/// The record of one resident node.
struct NodeRecord {
    state: NodeState,
    atlas_index: AtlasIndex,
    loaded: Vec<bool>,
}

impl View for NodeRecord {
    type V = RecordView;

    closed spec fn view(&self) -> RecordView {
        RecordView { state: self.state, atlas_index: self.atlas_index, loaded: self.loaded@ }
    }
}

/// Whether every flag of `flags` is set.
fn all_set(flags: &Vec<bool>) -> (all: bool)
    ensures
        all <==> forall|i: int| 0 <= i < flags@.len() ==> #[trigger] flags@[i],
{
    let mut i: usize = 0;
    while i < flags.len()
        invariant
            i <= flags@.len(),
            forall|j: int| 0 <= j < i ==> #[trigger] flags@[j],
        decreases flags@.len() - i,
    {
        if !flags[i] {
            return false;
        }
        i += 1;
    }
    true
}

/// The bounded cache of resident nodes.
pub struct NodeAtlas {
    capacity: u16,
    attachment_count: usize,
    nodes: HashMap<NodeId, NodeRecord>,
    free: Vec<AtlasIndex>,
    load_events: Vec<NodeId>,
    unload_events: Vec<NodeId>,
}

impl View for NodeAtlas {
    type V = AtlasView;

    closed spec fn view(&self) -> AtlasView {
        AtlasView {
            capacity: self.capacity as nat,
            attachment_count: self.attachment_count as nat,
            records: self.nodes@.map_values(|r: NodeRecord| r@),
            free: self.free@,
            load_events: self.load_events@,
            unload_events: self.unload_events@,
        }
    }
}

impl NodeAtlas {
    /// The invariant of the atlas, which every operation keeps.
    pub open spec fn wf(&self) -> bool {
        self@.wf()
    }

    /// Creates an atlas with `capacity` slots, all of them free, for nodes
    /// that consist of `attachment_count` attachments each.
    pub fn new(capacity: u16, attachment_count: usize) -> (atlas: NodeAtlas)
        ensures
            atlas.wf(),
            atlas@ == AtlasView::empty(capacity as nat, attachment_count as nat),
    {
        let mut free: Vec<AtlasIndex> = Vec::new();
        let mut k: u16 = 0;
        while k < capacity
            invariant
                k <= capacity,
                free@.len() == k,
                forall|i: int| 0 <= i < k ==> #[trigger] free@[i] == (capacity - 1 - i) as AtlasIndex,
            decreases capacity - k,
        {
            free.push(capacity - 1 - k);
            k += 1;
        }
        let atlas = NodeAtlas {
            capacity,
            attachment_count,
            nodes: HashMap::new(),
            free,
            load_events: Vec::new(),
            unload_events: Vec::new(),
        };
        proof {
            let model = AtlasView::empty(capacity as nat, attachment_count as nat);
            assert(atlas@.records =~= model.records);
            assert(atlas@.free =~= model.free);
            lemma_empty_wf(capacity as nat, attachment_count as nat);
        }
        atlas
    }

    /// The number of slots of the atlas.
    pub fn capacity(&self) -> (capacity: u16)
        ensures
            capacity == self@.capacity,
    {
        self.capacity
    }

    /// The number of attachments that each node consists of.
    pub fn attachment_count(&self) -> (count: usize)
        ensures
            count == self@.attachment_count,
    {
        self.attachment_count
    }

    /// The number of slots that no node owns.
    pub fn free_count(&self) -> (count: usize)
        ensures
            count == self@.free.len(),
    {
        self.free.len()
    }

    /// The number of nodes that have a record.
    pub fn resident_count(&self) -> (count: usize)
        ensures
            count == self@.records.dom().len(),
    {
        proof {
            assert(self@.records.dom() =~= self.nodes@.dom());
        }
        self.nodes.len()
    }

    /// Whether `node` has a record.
    pub fn contains(&self, node: NodeId) -> (present: bool)
        ensures
            present == self@.records.contains_key(node),
    {
        self.nodes.contains_key(&node)
    }

    /// The slot that `node` owns, if it has a record.
    pub fn slot_of(&self, node: NodeId) -> (slot: Option<AtlasIndex>)
        ensures
            slot == self@.slot_of(node),
    {
        match self.nodes.get(&node) {
            Some(record) => Some(record.atlas_index),
            None => None,
        }
    }

    /// The lifecycle state of `node`, if it has a record.
    pub fn state_of(&self, node: NodeId) -> (state: Option<NodeState>)
        ensures
            state == self@.state_of(node),
    {
        match self.nodes.get(&node) {
            Some(record) => Some(record.state),
            None => None,
        }
    }

    /// The slot of `node` if every attachment of it is resident.
    pub fn loaded_slot_of(&self, node: NodeId) -> (slot: Option<AtlasIndex>)
        ensures
            slot == if self@.is_loaded(node) {
                self@.slot_of(node)
            } else {
                None
            },
    {
        match self.nodes.get(&node) {
            Some(record) => match record.state {
                NodeState::Loaded => Some(record.atlas_index),
                _ => None,
            },
            None => None,
        }
    }

    /// Whether attachment `index` of `node` has finished loading. This is
    /// `false` for a node without a record and for an attachment that is not
    /// configured.
    pub fn attachment_loaded(&self, node: NodeId, index: AttachmentIndex) -> (loaded: bool)
        ensures
            loaded == (self@.records.contains_key(node) && index < self@.records[node].loaded.len()
                && self@.records[node].loaded[index as int]),
    {
        match self.nodes.get(&node) {
            Some(record) => index < record.loaded.len() && record.loaded[index],
            None => false,
        }
    }

    /// Requests `node`.
    ///
    /// Returns `Ok(false)` and changes nothing if the node has a record.
    /// Otherwise the node is given the slot that was freed last and a record
    /// in state `Requested`, and `Ok(true)` tells the caller to issue its
    /// loads; with no slot left, nothing changes and the error is returned.
    pub fn request(&mut self, node: NodeId) -> (outcome: Result<bool, AtlasFull>)
        requires
            old(self).wf(),
        ensures
            final(self).wf(),
            final(self)@ == old(self)@.request(node),
            outcome == old(self)@.request_outcome(node),
    {
        proof {
            lemma_request_wf(self@, node);
        }
        if self.nodes.contains_key(&node) {
            return Ok(false);
        }
        match self.free.pop() {
            None => Err(AtlasFull { node, capacity: self.capacity }),
            Some(slot) => {
                let mut loaded: Vec<bool> = Vec::new();
                let mut i: usize = 0;
                while i < self.attachment_count
                    invariant
                        i <= self.attachment_count,
                        loaded@.len() == i,
                        forall|j: int| 0 <= j < i ==> !(#[trigger] loaded@[j]),
                    decreases self.attachment_count - i,
                {
                    loaded.push(false);
                    i += 1;
                }
                let state = if self.attachment_count == 0 {
                    NodeState::Loaded
                } else {
                    NodeState::Requested
                };
                let record = NodeRecord { state, atlas_index: slot, loaded };
                proof {
                    assert(record@.loaded =~= old(self)@.fresh_record(slot).loaded);
                }
                self.nodes.insert(node, record);
                if self.attachment_count == 0 {
                    self.load_events.push(node);
                }
                proof {
                    let model = old(self)@.request(node);
                    assert(self@.records =~= model.records);
                    assert(self@.free =~= model.free);
                }
                Ok(true)
            },
        }
    }

    /// Releases `node`.
    ///
    /// Its record is removed, whatever state it is in, its slot returns to
    /// the pool, and the release is queued as an unload event. Releasing a
    /// node that has no record changes nothing. Returns the slot that was
    /// freed.
    pub fn release(&mut self, node: NodeId) -> (freed: Option<AtlasIndex>)
        requires
            old(self).wf(),
        ensures
            final(self).wf(),
            final(self)@ == old(self)@.release(node),
            freed == old(self)@.slot_of(node),
    {
        proof {
            lemma_release_wf(self@, node);
        }
        match self.nodes.remove(&node) {
            None => {
                proof {
                    assert(self@.records =~= old(self)@.records);
                }
                None
            },
            Some(record) => {
                self.free.push(record.atlas_index);
                self.unload_events.push(node);
                proof {
                    let model = old(self)@.release(node);
                    assert(self@.records =~= model.records);
                }
                Some(record.atlas_index)
            },
        }
    }

    /// Notes that the loads of `node` have been issued: a record in state
    /// `Requested` moves to `Loading`. Anything else is left as it is.
    pub fn start_loading(&mut self, node: NodeId)
        requires
            old(self).wf(),
        ensures
            final(self).wf(),
            final(self)@ == old(self)@.start_loading(node),
    {
        proof {
            lemma_start_loading_wf(self@, node);
        }
        match self.nodes.remove(&node) {
            None => {
                proof {
                    assert(self@.records =~= old(self)@.records);
                }
            },
            Some(record) => {
                let state = match record.state {
                    NodeState::Requested => NodeState::Loading,
                    other => other,
                };
                let updated = NodeRecord {
                    state,
                    atlas_index: record.atlas_index,
                    loaded: record.loaded,
                };
                self.nodes.insert(node, updated);
                proof {
                    let model = old(self)@.start_loading(node);
                    assert(self@.records =~= model.records);
                }
            },
        }
    }

    /// Notes that attachment `index` of `node` has finished loading.
    ///
    /// Does nothing if the node has no record (it may have been released
    /// while the load was in flight) or if no such attachment is configured.
    /// When the last missing attachment arrives the node becomes `Loaded`,
    /// which is queued as a load event and reported by returning `true`.
    pub fn mark_attachment_loaded(&mut self, node: NodeId, index: AttachmentIndex) -> (completed:
        bool)
        requires
            old(self).wf(),
        ensures
            final(self).wf(),
            final(self)@ == old(self)@.mark_attachment_loaded(node, index),
            completed == (!old(self)@.is_loaded(node) && final(self)@.is_loaded(node)),
    {
        proof {
            lemma_mark_wf(self@, node, index);
        }
        if index >= self.attachment_count {
            return false;
        }
        match self.nodes.remove(&node) {
            None => {
                proof {
                    assert(self@.records =~= old(self)@.records);
                }
                false
            },
            Some(record) => {
                proof {
                    assert(old(self)@.record_wf(old(self)@.records[node]));
                }
                let was_loaded = match record.state {
                    NodeState::Loaded => true,
                    _ => false,
                };
                let mut loaded = record.loaded;
                loaded.set(index, true);
                let complete = all_set(&loaded);
                let state = if complete {
                    NodeState::Loaded
                } else {
                    record.state
                };
                let updated = NodeRecord { state, atlas_index: record.atlas_index, loaded };
                proof {
                    let after = AtlasView::marked_record(old(self)@.records[node], index as int);
                    assert(updated@.loaded =~= after.loaded);
                    assert(updated@ == after);
                }
                self.nodes.insert(node, updated);
                let completed = complete && !was_loaded;
                if completed {
                    self.load_events.push(node);
                }
                proof {
                    let model = old(self)@.mark_attachment_loaded(node, index);
                    assert(self@.records =~= model.records);
                }
                completed
            },
        }
    }

    /// Hands out the nodes that became fully loaded since the last call, in
    /// the order in which they did, and clears the queue.
    pub fn drain_load_events(&mut self) -> (events: Vec<NodeId>)
        ensures
            events@ == old(self)@.load_events,
            final(self)@ == old(self)@.without_load_events(),
            old(self).wf() ==> final(self).wf(),
    {
        let mut events: Vec<NodeId> = Vec::new();
        std::mem::swap(&mut events, &mut self.load_events);
        events
    }

    /// Hands out the nodes that were released since the last call, in the
    /// order in which they were, and clears the queue.
    pub fn drain_unload_events(&mut self) -> (events: Vec<NodeId>)
        ensures
            events@ == old(self)@.unload_events,
            final(self)@ == old(self)@.without_unload_events(),
            old(self).wf() ==> final(self).wf(),
    {
        let mut events: Vec<NodeId> = Vec::new();
        std::mem::swap(&mut events, &mut self.unload_events);
        events
    }
}

/// An empty atlas meets the invariant.
pub proof fn lemma_empty_wf(capacity: nat, attachment_count: nat)
    requires
        capacity <= 0xFFFF,
    ensures
        AtlasView::empty(capacity, attachment_count).wf(),
        AtlasView::empty(capacity, attachment_count).free.len() == capacity,
{
    let v = AtlasView::empty(capacity, attachment_count);
    assert(v.records.dom() =~= Set::<NodeId>::empty());
}

/// A request keeps the invariant, whether it creates a record or not.
pub proof fn lemma_request_wf(v: AtlasView, node: NodeId)
    requires
        v.wf(),
    ensures
        v.request(node).wf(),
{
    let w = v.request(node);
    if !(v.records.contains_key(node) || v.free.len() == 0) {
        let slot = v.free.last();
        let fresh = v.fresh_record(slot);
        assert(w.records.dom() =~= v.records.dom().insert(node));
        assert(slot == v.free[v.free.len() - 1]);
        assert(fresh.complete() <==> v.attachment_count == 0) by {
            if v.attachment_count > 0 {
                assert(!fresh.loaded[0]);
            }
        }
        assert forall|i: int| 0 <= i < w.free.len() implies w.free[i] == v.free[i] by {}
        assert forall|n: NodeId| w.records.contains_key(n) implies w.record_wf(
            #[trigger] w.records[n],
        ) by {
            if n != node {
                assert(w.records[n] == v.records[n]);
            }
        }
        assert forall|n: NodeId, i: int|
            w.records.contains_key(n) && 0 <= i < w.free.len() implies (
        #[trigger] w.records[n]).atlas_index != #[trigger] w.free[i] by {
            if n != node {
                assert(w.records[n] == v.records[n]);
                assert(w.free[i] == v.free[i]);
            }
        }
        assert forall|a: NodeId, b: NodeId|
            w.records.contains_key(a) && w.records.contains_key(b) && a != b implies (
        #[trigger] w.records[a]).atlas_index != (#[trigger] w.records[b]).atlas_index by {
            if a == node {
                assert(w.records[b] == v.records[b]);
            } else if b == node {
                assert(w.records[a] == v.records[a]);
            } else {
                assert(w.records[a] == v.records[a]);
                assert(w.records[b] == v.records[b]);
            }
        }
    }
}

/// A release keeps the invariant, whether the node had a record or not.
pub proof fn lemma_release_wf(v: AtlasView, node: NodeId)
    requires
        v.wf(),
    ensures
        v.release(node).wf(),
{
    let w = v.release(node);
    if v.records.contains_key(node) {
        let slot = v.records[node].atlas_index;
        assert(w.records.dom() =~= v.records.dom().remove(node));
        assert(v.record_wf(v.records[node]));
        assert forall|i: int| 0 <= i < v.free.len() implies w.free[i] == v.free[i] by {}
        assert(w.free[v.free.len() as int] == slot);
        assert forall|i: int, j: int|
            0 <= i < w.free.len() && 0 <= j < w.free.len() && i != j implies w.free[i]
            != w.free[j] by {
            if i < v.free.len() && j < v.free.len() {
                assert(v.free[i] != v.free[j]);
            } else if i < v.free.len() {
                assert(v.records[node].atlas_index != v.free[i]);
            } else {
                assert(v.records[node].atlas_index != v.free[j]);
            }
        }
        assert forall|n: NodeId| w.records.contains_key(n) implies w.record_wf(
            #[trigger] w.records[n],
        ) by {
            assert(w.records[n] == v.records[n]);
        }
        assert forall|n: NodeId, i: int|
            w.records.contains_key(n) && 0 <= i < w.free.len() implies (
        #[trigger] w.records[n]).atlas_index != #[trigger] w.free[i] by {
            assert(w.records[n] == v.records[n]);
            if i < v.free.len() {
                assert(w.free[i] == v.free[i]);
            } else {
                assert(v.records[n].atlas_index != v.records[node].atlas_index);
            }
        }
        assert forall|a: NodeId, b: NodeId|
            w.records.contains_key(a) && w.records.contains_key(b) && a != b implies (
        #[trigger] w.records[a]).atlas_index != (#[trigger] w.records[b]).atlas_index by {
            assert(w.records[a] == v.records[a]);
            assert(w.records[b] == v.records[b]);
        }
    }
}

/// Replacing the record of a resident node by one that is consistent and
/// owns the same slot keeps the invariant.
proof fn lemma_update_wf(v: AtlasView, w: AtlasView, node: NodeId, record: RecordView)
    requires
        v.wf(),
        v.records.contains_key(node),
        v.record_wf(record),
        record.atlas_index == v.records[node].atlas_index,
        w.records == v.records.insert(node, record),
        w.capacity == v.capacity,
        w.attachment_count == v.attachment_count,
        w.free == v.free,
    ensures
        w.wf(),
{
    assert(w.records.dom() =~= v.records.dom());
    assert forall|n: NodeId| w.records.contains_key(n) implies w.record_wf(
        #[trigger] w.records[n],
    ) by {
        if n != node {
            assert(w.records[n] == v.records[n]);
        }
    }
    assert forall|n: NodeId, i: int|
        w.records.contains_key(n) && 0 <= i < w.free.len() implies (
    #[trigger] w.records[n]).atlas_index != #[trigger] w.free[i] by {
        assert(w.records[n].atlas_index == v.records[n].atlas_index);
    }
    assert forall|a: NodeId, b: NodeId|
        w.records.contains_key(a) && w.records.contains_key(b) && a != b implies (
    #[trigger] w.records[a]).atlas_index != (#[trigger] w.records[b]).atlas_index by {
        assert(w.records[a].atlas_index == v.records[a].atlas_index);
        assert(w.records[b].atlas_index == v.records[b].atlas_index);
    }
}

/// Issuing the loads of a node keeps the invariant.
pub proof fn lemma_start_loading_wf(v: AtlasView, node: NodeId)
    requires
        v.wf(),
    ensures
        v.start_loading(node).wf(),
{
    if v.records.contains_key(node) && v.records[node].state == NodeState::Requested {
        let before = v.records[node];
        let after = RecordView { state: NodeState::Loading, ..before };
        assert(v.record_wf(before));
        assert(!after.complete()) by {
            if after.complete() {
                assert forall|i: int| 0 <= i < before.loaded.len() implies before.loaded[i] by {
                    assert(after.loaded[i]);
                }
            }
        }
        lemma_update_wf(v, v.start_loading(node), node, after);
    }
}

/// Marking an attachment as loaded keeps the invariant.
pub proof fn lemma_mark_wf(v: AtlasView, node: NodeId, index: AttachmentIndex)
    requires
        v.wf(),
    ensures
        v.mark_attachment_loaded(node, index).wf(),
{
    if v.records.contains_key(node) && index < v.attachment_count {
        let before = v.records[node];
        let after = AtlasView::marked_record(before, index as int);
        assert(v.record_wf(before));
        if !(RecordView { loaded: after.loaded, ..before }).complete() {
            assert(!before.complete()) by {
                if before.complete() {
                    assert forall|i: int| 0 <= i < after.loaded.len() implies after.loaded[i] by {
                        assert(before.loaded[i]);
                    }
                }
            }
            assert(!after.complete());
        } else {
            assert(after.complete());
        }
        lemma_update_wf(v, v.mark_attachment_loaded(node, index), node, after);
    }
}

/// Slot accounting: in an atlas that meets the invariant every record owns
/// a slot of its own, so the owned slots are as many as the records, the
/// free and the owned slots add up to the capacity, and no slot is both.
pub proof fn lemma_slot_accounting(v: AtlasView)
    requires
        v.wf(),
    ensures
        v.occupied().finite(),
        v.occupied().len() == v.records.dom().len(),
        v.free.to_set().len() == v.free.len(),
        v.free.to_set().len() + v.occupied().len() == v.capacity,
        v.free.to_set().disjoint(v.occupied()),
{
    let owner_slot = |n: NodeId| v.records[n].atlas_index;
    assert(injective_on(owner_slot, v.records.dom())) by {
        assert forall|a: NodeId, b: NodeId|
            v.records.dom().contains(a) && v.records.dom().contains(b) && #[trigger] owner_slot(a)
                == #[trigger] owner_slot(b) implies a == b by {
            if a != b {
                assert(v.records[a].atlas_index != v.records[b].atlas_index);
            }
        }
    }
    lemma_map_size(v.records.dom(), v.occupied(), owner_slot);
    v.free.unique_seq_to_set();
    assert forall|s: AtlasIndex| !(v.free.to_set().contains(s) && v.occupied().contains(s)) by {
        if v.free.to_set().contains(s) && v.occupied().contains(s) {
            let i = choose|i: int| 0 <= i < v.free.len() && v.free[i] == s;
            let n = choose|n: NodeId| v.records.dom().contains(n) && owner_slot(n) == s;
            assert(v.records[n].atlas_index != v.free[i]);
        }
    }
}

/// No two resident nodes own the same slot.
pub proof fn lemma_slots_distinct(v: AtlasView, a: NodeId, b: NodeId)
    requires
        v.wf(),
        v.records.contains_key(a),
        v.records.contains_key(b),
        a != b,
    ensures
        v.slot_of(a) != v.slot_of(b),
        v.slot_of(a) is Some,
        v.slot_of(b) is Some,
{
    assert(v.records[a].atlas_index != v.records[b].atlas_index);
}

/// Releasing is idempotent: a node without a record is left alone, pool and
/// events included, so a second release of a node changes nothing.
pub proof fn lemma_release_idempotent(v: AtlasView, node: NodeId)
    ensures
        !v.records.contains_key(node) ==> v.release(node) == v,
        !v.release(node).records.contains_key(node),
        v.release(node).release(node) == v.release(node),
{
}

/// Requesting is idempotent: a node that has a record is left alone, so a
/// second request of a node changes nothing and creates nothing.
pub proof fn lemma_request_idempotent(v: AtlasView, node: NodeId)
    ensures
        v.records.contains_key(node) ==> v.request(node) == v,
        v.request(node).request(node) == v.request(node),
        v.request(node).request_outcome(node) is Ok ==> v.request(node).request_outcome(node) == Ok::<
            bool,
            AtlasFull,
        >(false),
{
}

/// A request is turned away exactly when the node has no record and every
/// slot is owned; a node that gets a record by it owns the slot that was
/// last in the pool, and every other record is as before.
pub proof fn lemma_request_outcome(v: AtlasView, node: NodeId)
    requires
        v.wf(),
    ensures
        v.request_outcome(node) is Err <==> !v.records.contains_key(node) && v.records.dom().len()
            == v.capacity,
        v.request_outcome(node) is Ok ==> v.request(node).records.contains_key(node),
        v.request_outcome(node) == Ok::<bool, AtlasFull>(true) ==> v.request(node).slot_of(node)
            == Some(v.free.last()),
        forall|other: NodeId|
            other != node ==> v.request(node).records.contains_key(other)
                == v.records.contains_key(other),
{
}

/// A resident node is `Loaded` if and only if every configured attachment
/// of it has been marked as loaded.
pub proof fn lemma_loaded_iff_all_marked(v: AtlasView, node: NodeId)
    requires
        v.wf(),
        v.records.contains_key(node),
    ensures
        v.records[node].loaded.len() == v.attachment_count,
        v.is_loaded(node) <==> forall|i: int|
            0 <= i < v.attachment_count ==> #[trigger] v.records[node].loaded[i],
{
    assert(v.record_wf(v.records[node]));
}

/// Marking an attachment as loaded sets that one flag of that one node and
/// no other, and never creates or removes a record; for a node that was
/// released in the meantime it changes nothing at all.
pub proof fn lemma_mark_effect(v: AtlasView, node: NodeId, index: AttachmentIndex)
    requires
        v.wf(),
    ensures
        v.mark_attachment_loaded(node, index).records.dom() == v.records.dom(),
        v.mark_attachment_loaded(node, index).free == v.free,
        !v.records.contains_key(node) ==> v.mark_attachment_loaded(node, index) == v,
        forall|other: NodeId|
            other != node && v.records.contains_key(other) ==> #[trigger] v.mark_attachment_loaded(
                node,
                index,
            ).records[other] == v.records[other],
        v.records.contains_key(node) && index < v.attachment_count ==> v.mark_attachment_loaded(
            node,
            index,
        ).records[node].loaded == v.records[node].loaded.update(index as int, true),
{
    let w = v.mark_attachment_loaded(node, index);
    assert(w.records.dom() =~= v.records.dom());
}

/// A new record has no attachment marked, so with at least one attachment
/// configured a node is never `Loaded` before a mark.
pub proof fn lemma_fresh_record_unmarked(v: AtlasView, node: NodeId)
    requires
        v.wf(),
        v.request_outcome(node) == Ok::<bool, AtlasFull>(true),
    ensures
        forall|i: int|
            0 <= i < v.attachment_count ==> !(#[trigger] v.request(node).records[node].loaded[i]),
        v.attachment_count > 0 ==> v.request(node).state_of(node) == Some(NodeState::Requested),
{
}

/// Only a mark sets a flag: requests, releases of other nodes and the start
/// of loading leave the flags of a resident node as they are.
pub proof fn lemma_flags_kept(v: AtlasView, node: NodeId, other: NodeId)
    requires
        v.records.contains_key(node),
    ensures
        v.request(other).records.contains_key(node),
        v.request(other).records[node].loaded == v.records[node].loaded,
        v.start_loading(other).records.contains_key(node),
        v.start_loading(other).records[node].loaded == v.records[node].loaded,
        other != node ==> v.release(other).records.contains_key(node) && v.release(
            other,
        ).records[node] == v.records[node],
{
}

} // verus!
