//! One update cycle: bringing the change of a view into the atlas.
//!
//! Within a cycle every release is applied before any request, so that a slot
//! freed in a cycle can be taken again in the same cycle. Several views may
//! share one atlas: a node that one view lets go of is released only if no
//! view requires it any more, so that no view loses a node to the update of
//! another. An atlas that is in step with its views, with the nodes resident
//! that the views require and no others, stays so from cycle to cycle as
//! long as it has room for every request. A request that finds the atlas
//! full is reported, kept by the caller, and asked again in the cycles that
//! follow for as long as a view requires the node.

use crate::node_atlas::{
    lemma_release_wf, lemma_request_wf, AtlasFull, AtlasView, NodeAtlas,
};
use crate::node_id::NodeId;
use crate::quadtree::{difference, holds_node, lemma_difference, Quadtree, ViewDelta};
use vstd::prelude::*;

verus! {

/// Whether one of `views` requires `node`.
pub open spec fn wanted_by(views: Seq<Quadtree>, node: NodeId) -> bool {
    exists|i: int| 0 <= i < views.len() && (#[trigger] views[i]).required().contains(node)
}

/// The atlas after each of `nodes` that none of `views` requires was
/// released, in the order of `nodes`.
pub open spec fn release_all(v: AtlasView, nodes: Seq<NodeId>, views: Seq<Quadtree>) -> AtlasView
    decreases nodes.len(),
{
    if nodes.len() == 0 {
        v
    } else {
        let before = release_all(v, nodes.drop_last(), views);
        if wanted_by(views, nodes.last()) {
            before
        } else {
            before.release(nodes.last())
        }
    }
}

/// The atlas after each of `nodes` was requested, in the order of `nodes`.
pub open spec fn request_all(v: AtlasView, nodes: Seq<NodeId>) -> AtlasView
    decreases nodes.len(),
{
    if nodes.len() == 0 {
        v
    } else {
        request_all(v, nodes.drop_last()).request(nodes.last())
    }
}

/// Those of `nodes` that get a new record when each of `nodes` is requested
/// in turn.
pub open spec fn created_by(v: AtlasView, nodes: Seq<NodeId>) -> Seq<NodeId>
    decreases nodes.len(),
{
    if nodes.len() == 0 {
        Seq::empty()
    } else {
        let before = request_all(v, nodes.drop_last());
        let earlier = created_by(v, nodes.drop_last());
        if before.request_outcome(nodes.last()) == Ok::<bool, AtlasFull>(true) {
            earlier.push(nodes.last())
        } else {
            earlier
        }
    }
}

/// Those of `nodes` that are turned away for want of a slot when each of
/// `nodes` is requested in turn.
pub open spec fn rejected_by(v: AtlasView, nodes: Seq<NodeId>) -> Seq<NodeId>
    decreases nodes.len(),
{
    if nodes.len() == 0 {
        Seq::empty()
    } else {
        let before = request_all(v, nodes.drop_last());
        let earlier = rejected_by(v, nodes.drop_last());
        if before.request_outcome(nodes.last()) is Err {
            earlier.push(nodes.last())
        } else {
            earlier
        }
    }
}

/// What became of the requests of one cycle.
#[derive(Debug)]
pub struct CycleReport {
    /// The nodes that got a new record: their loads are to be issued.
    pub created: Vec<NodeId>,
    /// The nodes that were turned away because the atlas was full.
    pub rejected: Vec<NodeId>,
}

/// Whether one of `views` requires `node` as of its last update.
pub fn is_wanted(views: &Vec<Quadtree>, node: NodeId) -> (wanted: bool)
    ensures
        wanted == wanted_by(views@, node),
{
    let mut i: usize = 0;
    while i < views.len()
        invariant
            i <= views@.len(),
            forall|j: int| 0 <= j < i ==> !(#[trigger] views@[j]).required().contains(node),
        decreases views@.len() - i,
    {
        if views[i].wants(node) {
            return true;
        }
        i += 1;
    }
    false
}

/// Brings the change of one view into the atlas.
///
/// `views` are all the views that share the atlas, as of their last update,
/// the view that `delta` comes from among them. First every node that the
/// view let go of is released, unless one of the views requires it; then
/// every node that the view newly requires is requested. The report lists
/// the nodes that are new in the atlas and the nodes that found it full.
pub fn apply_delta(atlas: &mut NodeAtlas, delta: &ViewDelta, views: &Vec<Quadtree>) -> (report:
    CycleReport)
    requires
        old(atlas).wf(),
    ensures
        final(atlas).wf(),
        final(atlas)@ == request_all(
            release_all(old(atlas)@, delta.released@, views@),
            delta.requested@,
        ),
        report.created@ == created_by(
            release_all(old(atlas)@, delta.released@, views@),
            delta.requested@,
        ),
        report.rejected@ == rejected_by(
            release_all(old(atlas)@, delta.released@, views@),
            delta.requested@,
        ),
{
    let mut i: usize = 0;
    proof {
        assert(delta.released@.subrange(0, 0) =~= Seq::<NodeId>::empty());
    }
    while i < delta.released.len()
        invariant
            i <= delta.released@.len(),
            atlas.wf(),
            atlas@ == release_all(old(atlas)@, delta.released@.subrange(0, i as int), views@),
        decreases delta.released@.len() - i,
    {
        let node = delta.released[i];
        proof {
            let done = delta.released@.subrange(0, i as int);
            assert(delta.released@.subrange(0, i + 1) =~= done.push(node));
            assert(done.push(node).drop_last() =~= done);
        }
        if !is_wanted(views, node) {
            let _ = atlas.release(node);
        }
        i += 1;
    }
    proof {
        assert(delta.released@.subrange(0, delta.released@.len() as int) =~= delta.released@);
    }
    let ghost released = atlas@;
    let mut created: Vec<NodeId> = Vec::new();
    let mut rejected: Vec<NodeId> = Vec::new();
    let mut k: usize = 0;
    proof {
        assert(delta.requested@.subrange(0, 0) =~= Seq::<NodeId>::empty());
    }
    while k < delta.requested.len()
        invariant
            k <= delta.requested@.len(),
            atlas.wf(),
            atlas@ == request_all(released, delta.requested@.subrange(0, k as int)),
            created@ == created_by(released, delta.requested@.subrange(0, k as int)),
            rejected@ == rejected_by(released, delta.requested@.subrange(0, k as int)),
        decreases delta.requested@.len() - k,
    {
        let node = delta.requested[k];
        proof {
            let done = delta.requested@.subrange(0, k as int);
            assert(delta.requested@.subrange(0, k + 1) =~= done.push(node));
            assert(done.push(node).drop_last() =~= done);
        }
        match atlas.request(node) {
            Ok(true) => {
                created.push(node);
            },
            Ok(false) => {},
            Err(_) => {
                rejected.push(node);
            },
        }
        k += 1;
    }
    proof {
        assert(delta.requested@.subrange(0, delta.requested@.len() as int) =~= delta.requested@);
    }
    CycleReport { created, rejected }
}

/// Releasing a list of nodes keeps the invariant of the atlas.
pub proof fn lemma_release_all_wf(v: AtlasView, nodes: Seq<NodeId>, views: Seq<Quadtree>)
    requires
        v.wf(),
    ensures
        release_all(v, nodes, views).wf(),
    decreases nodes.len(),
{
    if nodes.len() > 0 {
        lemma_release_all_wf(v, nodes.drop_last(), views);
        lemma_release_wf(release_all(v, nodes.drop_last(), views), nodes.last());
    }
}

/// Requesting a list of nodes keeps the invariant of the atlas.
pub proof fn lemma_request_all_wf(v: AtlasView, nodes: Seq<NodeId>)
    requires
        v.wf(),
    ensures
        request_all(v, nodes).wf(),
    decreases nodes.len(),
{
    if nodes.len() > 0 {
        lemma_request_all_wf(v, nodes.drop_last());
        lemma_request_wf(request_all(v, nodes.drop_last()), nodes.last());
    }
}

/// No view loses a node to the update of another: a node that some view
/// requires keeps its record, state and slot through the releases of a
/// cycle, and so does every node that is not on the list. No release
/// creates a record.
pub proof fn lemma_release_all_spares(
    v: AtlasView,
    nodes: Seq<NodeId>,
    views: Seq<Quadtree>,
    node: NodeId,
)
    ensures
        release_all(v, nodes, views).records.contains_key(node) ==> v.records.contains_key(node),
        v.records.contains_key(node) && (wanted_by(views, node) || !nodes.contains(node)) ==> {
            &&& release_all(v, nodes, views).records.contains_key(node)
            &&& release_all(v, nodes, views).records[node] == v.records[node]
        },
        v.records.contains_key(node) && nodes.contains(node) && !wanted_by(views, node)
            ==> !release_all(v, nodes, views).records.contains_key(node),
    decreases nodes.len(),
{
    if nodes.len() > 0 {
        let front = nodes.drop_last();
        lemma_release_all_spares(v, front, views, node);
        if nodes.contains(node) && nodes.last() != node {
            let i = choose|i: int| 0 <= i < nodes.len() && nodes[i] == node;
            assert(front[i] == node);
        }
        if front.contains(node) {
            let i = choose|i: int| 0 <= i < front.len() && front[i] == node;
            assert(nodes[i] == node);
        }
        if nodes.last() == node {
            assert(nodes[nodes.len() - 1] == node);
        }
    }
}

/// The requests of a cycle remove nothing: every record is kept as it is,
/// state and slot included.
pub proof fn lemma_request_all_keeps(v: AtlasView, nodes: Seq<NodeId>, node: NodeId)
    requires
        v.records.contains_key(node),
    ensures
        request_all(v, nodes).records.contains_key(node),
        request_all(v, nodes).records[node] == v.records[node],
    decreases nodes.len(),
{
    if nodes.len() > 0 {
        lemma_request_all_keeps(v, nodes.drop_last(), node);
    }
}

/// No request is dropped in silence: after the requests of a cycle every
/// node on the list has a record or is reported as turned away, and a node
/// is reported as new only if it had no record before and has one now.
pub proof fn lemma_request_all_accounts(v: AtlasView, nodes: Seq<NodeId>, node: NodeId)
    requires
        nodes.contains(node),
    ensures
        request_all(v, nodes).records.contains_key(node) || rejected_by(v, nodes).contains(node),
        created_by(v, nodes).contains(node) ==> !v.records.contains_key(node) && request_all(
            v,
            nodes,
        ).records.contains_key(node),
    decreases nodes.len(),
{
    let front = nodes.drop_last();
    let last = nodes.last();
    let before = request_all(v, front);
    let i = choose|i: int| 0 <= i < nodes.len() && nodes[i] == node;
    if i < nodes.len() - 1 {
        assert(front[i] == node);
        lemma_request_all_accounts(v, front, node);
        if before.records.contains_key(node) {
            assert(before.request(last).records.contains_key(node));
        } else {
            let j = choose|j: int|
                0 <= j < rejected_by(v, front).len() && rejected_by(v, front)[j] == node;
            assert(rejected_by(v, nodes)[j] == node);
        }
    }
    if last == node {
        if before.request_outcome(node) is Err {
            assert(rejected_by(v, nodes)[rejected_by(v, nodes).len() - 1] == node);
        }
    }
    if created_by(v, nodes).contains(node) {
        let c = created_by(v, nodes);
        let j = choose|j: int| 0 <= j < c.len() && c[j] == node;
        if before.request_outcome(last) == Ok::<bool, AtlasFull>(true) && j == c.len() - 1 {
            if v.records.contains_key(node) {
                lemma_request_all_keeps(v, front, node);
            }
        } else {
            assert(created_by(v, front)[j] == node);
            assert(created_by(v, front).contains(node));
            if !front.contains(node) {
                lemma_created_listed(v, front, node);
            }
            lemma_request_all_accounts(v, front, node);
            assert(before.request(last).records.contains_key(node));
        }
    }
}

/// What is reported as new or as turned away was on the list.
pub proof fn lemma_created_listed(v: AtlasView, nodes: Seq<NodeId>, node: NodeId)
    ensures
        created_by(v, nodes).contains(node) ==> nodes.contains(node),
        rejected_by(v, nodes).contains(node) ==> nodes.contains(node),
    decreases nodes.len(),
{
    if nodes.len() > 0 {
        let front = nodes.drop_last();
        lemma_created_listed(v, front, node);
        if front.contains(node) {
            let i = choose|i: int| 0 <= i < front.len() && front[i] == node;
            assert(nodes[i] == node);
        }
        assert(nodes[nodes.len() - 1] == nodes.last());
        let c = created_by(v, nodes);
        if c.contains(node) {
            let j = choose|j: int| 0 <= j < c.len() && c[j] == node;
            if j < created_by(v, front).len() {
                assert(created_by(v, front)[j] == node);
            }
        }
        let r = rejected_by(v, nodes);
        if r.contains(node) {
            let j = choose|j: int| 0 <= j < r.len() && r[j] == node;
            if j < rejected_by(v, front).len() {
                assert(rejected_by(v, front)[j] == node);
            }
        }
    }
}

/// With a free slot for every node on the list, no request of the cycle is
/// turned away.
pub proof fn lemma_room_for_all(v: AtlasView, nodes: Seq<NodeId>)
    requires
        nodes.len() <= v.free.len(),
    ensures
        rejected_by(v, nodes) == Seq::<NodeId>::empty(),
        request_all(v, nodes).free.len() >= v.free.len() - nodes.len(),
    decreases nodes.len(),
{
    if nodes.len() > 0 {
        lemma_room_for_all(v, nodes.drop_last());
    }
}

/// The requests of a cycle create records for listed nodes only.
pub proof fn lemma_request_all_only_listed(v: AtlasView, nodes: Seq<NodeId>, node: NodeId)
    requires
        request_all(v, nodes).records.contains_key(node),
    ensures
        v.records.contains_key(node) || nodes.contains(node),
    decreases nodes.len(),
{
    if nodes.len() > 0 {
        let front = nodes.drop_last();
        if nodes.last() == node {
            assert(nodes[nodes.len() - 1] == node);
        } else {
            lemma_request_all_only_listed(v, front, node);
            if front.contains(node) {
                let i = choose|i: int| 0 <= i < front.len() && front[i] == node;
                assert(nodes[i] == node);
            }
        }
    }
}

/// Whether the atlas is in step with the views: a node is resident exactly
/// if one of the views requires it.
pub open spec fn in_step(v: AtlasView, views: Seq<Quadtree>) -> bool {
    forall|node: NodeId| #[trigger] v.records.contains_key(node) <==> wanted_by(views, node)
}

/// The atlas after the cycle of a view whose required set changed from
/// `previous` to what it is in `views`.
pub open spec fn after_cycle(v: AtlasView, previous: Seq<NodeId>, views: Seq<Quadtree>, i: int) -> AtlasView {
    request_all(
        release_all(v, difference(previous, views[i].required()), views),
        difference(views[i].required(), previous),
    )
}

/// Those of the nodes that the view newly requires which the cycle turns
/// away.
pub open spec fn turned_away(v: AtlasView, previous: Seq<NodeId>, views: Seq<Quadtree>, i: int) -> Seq<
    NodeId,
> {
    rejected_by(
        release_all(v, difference(previous, views[i].required()), views),
        difference(views[i].required(), previous),
    )
}

/// A cycle keeps the atlas in step with the views.
///
/// Let the atlas be in step with the views before view `i` is updated, that
/// is with the views as they are now but for the required set of view `i`,
/// which was `previous`. Then after the cycle of view `i` every node that a
/// view requires is resident or was turned away, and every resident node is
/// one that a view requires: with room for every request the atlas is in
/// step again.
pub proof fn lemma_cycle_in_step(v: AtlasView, previous: Seq<NodeId>, views: Seq<Quadtree>, i: int)
    requires
        0 <= i < views.len(),
        forall|node: NodeId| #[trigger]
            v.records.contains_key(node) <==> previous.contains(node) || exists|j: int|
                0 <= j < views.len() && j != i && (#[trigger] views[j]).required().contains(node),
    ensures
        forall|node: NodeId| #[trigger]
            after_cycle(v, previous, views, i).records.contains_key(node) ==> wanted_by(views, node),
        forall|node: NodeId|
            wanted_by(views, node) ==> #[trigger] after_cycle(
                v,
                previous,
                views,
                i,
            ).records.contains_key(node) || turned_away(v, previous, views, i).contains(node),
        turned_away(v, previous, views, i).len() == 0 ==> in_step(
            after_cycle(v, previous, views, i),
            views,
        ),
{
    let current = views[i].required();
    let released = difference(previous, current);
    let requested = difference(current, previous);
    let freed = release_all(v, released, views);
    let w = request_all(freed, requested);
    lemma_difference(previous, current);
    lemma_difference(current, previous);
    assert forall|node: NodeId| #[trigger] w.records.contains_key(node) implies wanted_by(
        views,
        node,
    ) by {
        lemma_request_all_only_listed(freed, requested, node);
        if !requested.contains(node) {
            lemma_release_all_spares(v, released, views, node);
            if !wanted_by(views, node) {
                assert(v.records.contains_key(node));
                assert(!current.contains(node));
                assert(previous.contains(node));
                assert(released.contains(node));
            }
        }
    }
    assert forall|node: NodeId| wanted_by(views, node) implies #[trigger] w.records.contains_key(
        node,
    ) || turned_away(v, previous, views, i).contains(node) by {
        if requested.contains(node) {
            lemma_request_all_accounts(freed, requested, node);
        } else {
            let j = choose|j: int|
                0 <= j < views.len() && (#[trigger] views[j]).required().contains(node);
            assert(v.records.contains_key(node)) by {
                if j == i {
                    assert(previous.contains(node));
                }
            }
            lemma_release_all_spares(v, released, views, node);
            lemma_request_all_keeps(freed, requested, node);
        }
    }
    if turned_away(v, previous, views, i).len() == 0 {
        assert forall|node: NodeId| #[trigger]
            w.records.contains_key(node) <==> wanted_by(views, node) by {
            if wanted_by(views, node) && !w.records.contains_key(node) {
                assert(turned_away(v, previous, views, i).contains(node));
            }
        }
    }
}

/// Those of `nodes` that one of `views` requires, in the order of `nodes`.
pub open spec fn still_wanted(nodes: Seq<NodeId>, views: Seq<Quadtree>) -> Seq<NodeId> {
    nodes.filter(|node: NodeId| wanted_by(views, node))
}

/// The list `kept` with each of `more` added at its end that it does not
/// hold yet, in the order of `more`.
pub open spec fn merged(kept: Seq<NodeId>, more: Seq<NodeId>) -> Seq<NodeId>
    decreases more.len(),
{
    if more.len() == 0 {
        kept
    } else {
        let earlier = merged(kept, more.drop_last());
        if earlier.contains(more.last()) {
            earlier
        } else {
            earlier.push(more.last())
        }
    }
}

/// Requests again the nodes that an earlier cycle turned away.
///
/// `waiting` are the nodes that found the atlas full. Each of them that one
/// of `views` still requires is requested again, in the order of `waiting`;
/// a node that no view requires any more is dropped. The report lists the
/// nodes that got a record this time and the nodes that were turned away
/// again, which the caller keeps for the next cycle.
pub fn retry_rejected(atlas: &mut NodeAtlas, waiting: &Vec<NodeId>, views: &Vec<Quadtree>) -> (report:
    CycleReport)
    requires
        old(atlas).wf(),
    ensures
        final(atlas).wf(),
        final(atlas)@ == request_all(old(atlas)@, still_wanted(waiting@, views@)),
        report.created@ == created_by(old(atlas)@, still_wanted(waiting@, views@)),
        report.rejected@ == rejected_by(old(atlas)@, still_wanted(waiting@, views@)),
{
    let mut wanted: Vec<NodeId> = Vec::new();
    let mut i: usize = 0;
    proof {
        reveal(Seq::filter);
        assert(waiting@.subrange(0, 0) =~= Seq::<NodeId>::empty());
    }
    while i < waiting.len()
        invariant
            i <= waiting@.len(),
            wanted@ == still_wanted(waiting@.subrange(0, i as int), views@),
        decreases waiting@.len() - i,
    {
        let node = waiting[i];
        proof {
            reveal(Seq::filter);
            let done = waiting@.subrange(0, i as int);
            assert(waiting@.subrange(0, i + 1) =~= done.push(node));
            assert(done.push(node).drop_last() =~= done);
        }
        if is_wanted(views, node) {
            wanted.push(node);
        }
        i += 1;
    }
    proof {
        assert(waiting@.subrange(0, waiting@.len() as int) =~= waiting@);
    }
    let delta = ViewDelta { requested: wanted, released: Vec::new() };
    apply_delta(atlas, &delta, views)
}

/// Adds to the list `kept` each node of `more` that it does not hold yet.
pub fn note_rejected(kept: &mut Vec<NodeId>, more: &Vec<NodeId>)
    ensures
        final(kept)@ == merged(old(kept)@, more@),
{
    let mut i: usize = 0;
    proof {
        assert(more@.subrange(0, 0) =~= Seq::<NodeId>::empty());
    }
    while i < more.len()
        invariant
            i <= more@.len(),
            kept@ == merged(old(kept)@, more@.subrange(0, i as int)),
        decreases more@.len() - i,
    {
        let node = more[i];
        proof {
            let done = more@.subrange(0, i as int);
            assert(more@.subrange(0, i + 1) =~= done.push(node));
            assert(done.push(node).drop_last() =~= done);
        }
        if !holds_node(kept, node) {
            kept.push(node);
        }
        i += 1;
    }
    proof {
        assert(more@.subrange(0, more@.len() as int) =~= more@);
    }
}

/// A merged list holds what either list holds, and it repeats nothing that
/// the kept list did not repeat.
pub proof fn lemma_merged(kept: Seq<NodeId>, more: Seq<NodeId>)
    ensures
        forall|node: NodeId| #[trigger]
            merged(kept, more).contains(node) <==> kept.contains(node) || more.contains(node),
        kept.no_duplicates() ==> merged(kept, more).no_duplicates(),
    decreases more.len(),
{
    if more.len() > 0 {
        let front = more.drop_last();
        let last = more.last();
        let earlier = merged(kept, front);
        let all = merged(kept, more);
        lemma_merged(kept, front);
        assert forall|node: NodeId| #[trigger]
            all.contains(node) <==> kept.contains(node) || more.contains(node) by {
            if more.contains(node) {
                let i = choose|i: int| 0 <= i < more.len() && more[i] == node;
                if i < front.len() {
                    assert(front[i] == node);
                    assert(front.contains(node));
                }
            }
            if front.contains(node) {
                let i = choose|i: int| 0 <= i < front.len() && front[i] == node;
                assert(more[i] == node);
            }
            assert(more[more.len() - 1] == last);
            if earlier.contains(node) {
                let i = choose|i: int| 0 <= i < earlier.len() && earlier[i] == node;
                if !earlier.contains(last) {
                    assert(all[i] == node);
                }
            }
            if all.contains(node) && !earlier.contains(last) {
                let i = choose|i: int| 0 <= i < all.len() && all[i] == node;
                if i < earlier.len() {
                    assert(earlier[i] == node);
                }
            }
            if node == last && !earlier.contains(last) {
                assert(all[all.len() - 1] == last);
            }
        }
        if kept.no_duplicates() && !earlier.contains(last) {
            assert forall|i: int, j: int|
                0 <= i < all.len() && 0 <= j < all.len() && i != j implies all[i] != all[j] by {
                if i < earlier.len() && j < earlier.len() {
                    assert(earlier[i] != earlier[j]);
                } else if i < earlier.len() {
                    assert(earlier[i] == all[i]);
                    assert(earlier.contains(all[i]));
                } else {
                    assert(earlier[j] == all[j]);
                    assert(earlier.contains(all[j]));
                }
            }
        }
    }
}

/// A retry asks only for nodes that were waiting and that a view still
/// requires: whatever it creates or turns away again is such a node, and a
/// waiting node that no view requires any more is neither.
pub proof fn lemma_retry_listed(v: AtlasView, waiting: Seq<NodeId>, views: Seq<Quadtree>, node: NodeId)
    ensures
        created_by(v, still_wanted(waiting, views)).contains(node) ==> waiting.contains(node)
            && wanted_by(views, node),
        rejected_by(v, still_wanted(waiting, views)).contains(node) ==> waiting.contains(node)
            && wanted_by(views, node),
        waiting.contains(node) && wanted_by(views, node) ==> request_all(
            v,
            still_wanted(waiting, views),
        ).records.contains_key(node) || rejected_by(v, still_wanted(waiting, views)).contains(node),
{
    let asked = still_wanted(waiting, views);
    lemma_created_listed(v, asked, node);
    lemma_still_wanted(waiting, views);
    if asked.contains(node) {
        lemma_request_all_accounts(v, asked, node);
    }
}

/// A node is among those still wanted exactly if it is on the list and one
/// of the views requires it.
pub proof fn lemma_still_wanted(nodes: Seq<NodeId>, views: Seq<Quadtree>)
    ensures
        forall|node: NodeId| #[trigger]
            still_wanted(nodes, views).contains(node) <==> nodes.contains(node) && wanted_by(
                views,
                node,
            ),
    decreases nodes.len(),
{
    reveal(Seq::filter);
    if nodes.len() > 0 {
        let front = nodes.drop_last();
        let last = nodes.last();
        let all = still_wanted(nodes, views);
        let earlier = still_wanted(front, views);
        lemma_still_wanted(front, views);
        assert forall|node: NodeId| #[trigger]
            all.contains(node) <==> nodes.contains(node) && wanted_by(views, node) by {
            if all.contains(node) {
                let i = choose|i: int| 0 <= i < all.len() && all[i] == node;
                if wanted_by(views, last) && i == all.len() - 1 {
                    assert(nodes[nodes.len() - 1] == node);
                } else {
                    assert(earlier[i] == node);
                    assert(earlier.contains(node));
                    let j = choose|j: int| 0 <= j < front.len() && front[j] == node;
                    assert(nodes[j] == node);
                }
            }
            if nodes.contains(node) && wanted_by(views, node) {
                let j = choose|j: int| 0 <= j < nodes.len() && nodes[j] == node;
                if j == nodes.len() - 1 {
                    assert(all[all.len() - 1] == node);
                } else {
                    assert(front[j] == node);
                    assert(front.contains(node));
                    assert(earlier.contains(node));
                    let i = choose|i: int| 0 <= i < earlier.len() && earlier[i] == node;
                    assert(all[i] == node);
                }
            }
        }
    }
}

} // verus!
