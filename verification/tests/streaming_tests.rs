use terrain_stream::node_atlas::{NodeAtlas, NodeState};
use terrain_stream::node_id::{encode, NodeId};
use terrain_stream::quadtree::{Quadtree, ViewDelta};
use terrain_stream::selection::{ViewConfig, ViewPosition};
use terrain_stream::streaming::{apply_delta, is_wanted, note_rejected, retry_rejected};

fn tree(lods: u32, roots: u32, leaf: u32, distances: &[u32]) -> Quadtree {
    Quadtree::new(ViewConfig {
        lod_count: lods,
        root_count: roots,
        leaf_size: leaf,
        load_distance: distances.to_vec(),
        circular: false,
    })
    .unwrap()
}

fn id(lod: u32, x: u32, y: u32) -> NodeId {
    encode(lod, x, y).unwrap()
}

#[test]
fn releases_come_before_requests() {
    let mut atlas = NodeAtlas::new(2, 1);
    assert_eq!(atlas.request(1), Ok(true));
    assert_eq!(atlas.request(2), Ok(true));
    let delta = ViewDelta { requested: vec![3, 4], released: vec![1, 2] };
    let report = apply_delta(&mut atlas, &delta, &vec![]);
    assert_eq!(report.created, vec![3, 4]);
    assert!(report.rejected.is_empty());
    assert_eq!(atlas.slot_of(1), None);
    assert_eq!(atlas.slot_of(2), None);
    assert_eq!(atlas.slot_of(3), Some(1));
    assert_eq!(atlas.slot_of(4), Some(0));
    assert_eq!(atlas.drain_unload_events(), vec![1, 2]);
}

#[test]
fn requests_beyond_the_capacity_are_reported() {
    let mut atlas = NodeAtlas::new(2, 1);
    let delta = ViewDelta { requested: vec![1, 2, 3, 2, 4], released: vec![] };
    let report = apply_delta(&mut atlas, &delta, &vec![]);
    assert_eq!(report.created, vec![1, 2]);
    assert_eq!(report.rejected, vec![3, 4]);
    assert_eq!(atlas.free_count(), 0);
    assert!(atlas.contains(1) && atlas.contains(2));
    assert!(!atlas.contains(3) && !atlas.contains(4));
}

#[test]
fn resident_nodes_are_not_reported_as_new() {
    let mut atlas = NodeAtlas::new(4, 1);
    assert_eq!(atlas.request(1), Ok(true));
    atlas.start_loading(1);
    let delta = ViewDelta { requested: vec![1, 2], released: vec![9] };
    let report = apply_delta(&mut atlas, &delta, &vec![]);
    assert_eq!(report.created, vec![2]);
    assert!(report.rejected.is_empty());
    assert_eq!(atlas.state_of(1), Some(NodeState::Loading));
    assert_eq!(atlas.drain_unload_events(), Vec::<NodeId>::new());
}

#[test]
fn node_of_another_view_is_not_released() {
    let mut atlas = NodeAtlas::new(8, 1);
    let mut near = tree(2, 1, 4, &[2, 100]);
    let mut far = tree(2, 1, 4, &[2, 100]);
    let root = id(1, 0, 0);

    let delta = far.update(ViewPosition { x: -5, y: 0 });
    let views = vec![near, far];
    let report = apply_delta(&mut atlas, &delta, &views);
    assert_eq!(report.created, vec![root]);
    let mut views = views;
    far = views.pop().unwrap();
    near = views.pop().unwrap();

    let delta = near.update(ViewPosition { x: -2, y: 0 });
    assert_eq!(delta.requested, vec![root]);
    let views = vec![near, far];
    let report = apply_delta(&mut atlas, &delta, &views);
    assert!(report.created.is_empty());
    assert!(is_wanted(&views, root));
    let mut views = views;
    far = views.pop().unwrap();
    near = views.pop().unwrap();

    let delta = near.update(ViewPosition { x: -1, y: 0 });
    assert_eq!(delta.released, vec![root]);
    let views = vec![near, far];
    let report = apply_delta(&mut atlas, &delta, &views);
    assert_eq!(report.created.len(), 4);
    assert_eq!(atlas.slot_of(root), Some(0));
    assert_eq!(atlas.resident_count(), 5);
    assert_eq!(atlas.drain_unload_events(), Vec::<NodeId>::new());
    let mut views = views;
    far = views.pop().unwrap();
    near = views.pop().unwrap();

    let released = far.clear();
    assert_eq!(released, vec![root]);
    let delta = ViewDelta { requested: vec![], released };
    let views = vec![near, far];
    let _ = apply_delta(&mut atlas, &delta, &views);
    assert_eq!(atlas.slot_of(root), None);
    assert_eq!(atlas.resident_count(), 4);
    assert_eq!(atlas.drain_unload_events(), vec![root]);
    assert!(!is_wanted(&views, root));
}

#[test]
fn moving_view_keeps_the_atlas_in_step_with_its_required_set() {
    let mut atlas = NodeAtlas::new(64, 1);
    let mut views = vec![tree(3, 2, 2, &[3, 6, 11])];
    for &(x, y) in &[(5, 9), (6, 9), (9, 3), (-2, -2), (30, 30), (8, 8)] {
        let delta = views[0].update(ViewPosition { x, y });
        let report = apply_delta(&mut atlas, &delta, &views);
        assert!(report.rejected.is_empty());
        assert_eq!(report.created, delta.requested);
        assert_eq!(atlas.resident_count(), views[0].required_nodes().len());
        assert_eq!(atlas.free_count() + atlas.resident_count(), 64);
        for &node in views[0].required_nodes().iter() {
            assert!(atlas.contains(node));
        }
    }
}

#[test]
fn rejected_node_is_requested_again_once_a_slot_is_free() {
    let mut atlas = NodeAtlas::new(1, 1);
    let mut views = vec![tree(3, 1, 1, &[0, 3, 4])];
    let root = id(2, 0, 0);
    let (left, right) = (id(1, 0, 0), id(1, 0, 1));

    let delta = views[0].update(ViewPosition { x: -3, y: 1 });
    let report = apply_delta(&mut atlas, &delta, &views);
    assert_eq!(report.created, vec![root]);

    let delta = views[0].update(ViewPosition { x: -2, y: 1 });
    let report = apply_delta(&mut atlas, &delta, &views);
    assert_eq!(report.created, vec![left]);
    assert_eq!(report.rejected, vec![right]);
    let mut waiting = Vec::new();
    note_rejected(&mut waiting, &report.rejected);
    assert_eq!(waiting, vec![right]);

    let again = retry_rejected(&mut atlas, &waiting, &views);
    assert!(again.created.is_empty());
    assert_eq!(again.rejected, vec![right]);
    assert!(!atlas.contains(right));

    assert_eq!(atlas.release(left), Some(0));
    let again = retry_rejected(&mut atlas, &waiting, &views);
    assert_eq!(again.created, vec![right]);
    assert!(again.rejected.is_empty());
    assert_eq!(atlas.slot_of(right), Some(0));
}

#[test]
fn rejected_node_that_no_view_requires_is_dropped() {
    let mut atlas = NodeAtlas::new(4, 1);
    let mut views = vec![tree(3, 1, 1, &[0, 3, 4])];
    let _ = views[0].update(ViewPosition { x: -3, y: 1 });
    let waiting = vec![id(1, 0, 0), id(2, 0, 0), id(1, 0, 1)];
    let report = retry_rejected(&mut atlas, &waiting, &views);
    assert_eq!(report.created, vec![id(2, 0, 0)]);
    assert!(report.rejected.is_empty());
    assert_eq!(atlas.resident_count(), 1);
    assert!(!atlas.contains(id(1, 0, 0)));

    let nothing = retry_rejected(&mut atlas, &vec![], &views);
    assert!(nothing.created.is_empty() && nothing.rejected.is_empty());
    let resident = retry_rejected(&mut atlas, &vec![id(2, 0, 0)], &views);
    assert!(resident.created.is_empty() && resident.rejected.is_empty());
}

#[test]
fn note_rejected_keeps_each_node_once() {
    let mut kept = vec![3, 1];
    note_rejected(&mut kept, &vec![1, 2, 2, 3, 4]);
    assert_eq!(kept, vec![3, 1, 2, 4]);
    note_rejected(&mut kept, &vec![]);
    assert_eq!(kept, vec![3, 1, 2, 4]);
    let mut empty = Vec::new();
    note_rejected(&mut empty, &vec![7, 7]);
    assert_eq!(empty, vec![7]);
}
