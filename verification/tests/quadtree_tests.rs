use terrain_stream::node_atlas::NodeAtlas;
use terrain_stream::node_id::{encode, NodeId};
use terrain_stream::quadtree::{diff, Quadtree};
use terrain_stream::selection::{ConfigError, ViewConfig, ViewPosition};

fn tree(lods: u32, roots: u32, leaf: u32, distances: &[u32]) -> Quadtree {
    Quadtree::new(ViewConfig {
        lod_count: lods,
        root_count: roots,
        leaf_size: leaf,
        load_distance: distances.to_vec(),
        circular: false,
    })
    .unwrap()
}

fn id(lod: u32, x: u32, y: u32) -> NodeId {
    encode(lod, x, y).unwrap()
}

#[test]
fn diff_lists_what_is_new_and_what_is_gone() {
    let delta = diff(&vec![1, 2, 3, 4], &vec![6, 4, 5, 2]);
    assert_eq!(delta.requested, vec![6, 5]);
    assert_eq!(delta.released, vec![1, 3]);
}

#[test]
fn diff_of_equal_sets_is_empty() {
    let delta = diff(&vec![3, 1, 2], &vec![1, 2, 3]);
    assert!(delta.requested.is_empty());
    assert!(delta.released.is_empty());
    let nothing = diff(&vec![], &vec![]);
    assert!(nothing.requested.is_empty());
    assert!(nothing.released.is_empty());
}

#[test]
fn diff_against_nothing_requests_everything() {
    let delta = diff(&vec![], &vec![9, 8]);
    assert_eq!(delta.requested, vec![9, 8]);
    assert!(delta.released.is_empty());
    let back = diff(&vec![9, 8], &vec![]);
    assert!(back.requested.is_empty());
    assert_eq!(back.released, vec![9, 8]);
}

#[test]
fn new_view_requires_nothing() {
    let view = tree(2, 2, 4, &[2, 4]);
    assert!(view.required_nodes().is_empty());
    assert!(!view.wants(id(1, 0, 0)));
}

#[test]
fn new_view_rejects_an_unusable_configuration() {
    let bad = ViewConfig {
        lod_count: 2,
        root_count: 1,
        leaf_size: 1,
        load_distance: vec![1],
        circular: false,
    };
    assert!(matches!(Quadtree::new(bad), Err(ConfigError::LoadDistances)));
}

#[test]
fn first_update_requests_the_whole_required_set() {
    let mut view = tree(2, 2, 4, &[1, 100]);
    let delta = view.update(ViewPosition { x: 0, y: 0 });
    assert_eq!(delta.requested, view.required_nodes().clone());
    assert!(delta.released.is_empty());
    assert_eq!(delta.requested.len(), 7);
    assert!(view.wants(id(0, 1, 1)));
    assert!(!view.wants(id(1, 0, 0)));
}

#[test]
fn update_without_movement_changes_nothing() {
    let mut view = tree(3, 2, 2, &[3, 6, 11]);
    let _ = view.update(ViewPosition { x: 5, y: 9 });
    let delta = view.update(ViewPosition { x: 5, y: 9 });
    assert!(delta.requested.is_empty());
    assert!(delta.released.is_empty());
}

#[test]
fn parent_is_replaced_by_its_two_visible_children() {
    let mut view = tree(3, 1, 1, &[0, 3, 4]);
    let first = view.update(ViewPosition { x: -3, y: 1 });
    assert_eq!(first.requested, vec![id(2, 0, 0)]);
    assert!(first.released.is_empty());

    let delta = view.update(ViewPosition { x: -2, y: 1 });
    assert_eq!(delta.released, vec![id(2, 0, 0)]);
    assert_eq!(delta.requested, vec![id(1, 0, 0), id(1, 0, 1)]);
    assert_eq!(view.required_nodes(), &vec![id(1, 0, 0), id(1, 0, 1)]);

    let back = view.update(ViewPosition { x: -3, y: 1 });
    assert_eq!(back.released, vec![id(1, 0, 0), id(1, 0, 1)]);
    assert_eq!(back.requested, vec![id(2, 0, 0)]);
}

#[test]
fn parent_is_replaced_by_its_four_children_in_full_view() {
    let mut view = tree(2, 1, 4, &[2, 100]);
    let _ = view.update(ViewPosition { x: -2, y: 0 });
    assert_eq!(view.required_nodes(), &vec![id(1, 0, 0)]);
    let delta = view.update(ViewPosition { x: -1, y: 0 });
    assert_eq!(delta.released, vec![id(1, 0, 0)]);
    assert_eq!(delta.requested, vec![id(0, 0, 0), id(0, 1, 0), id(0, 0, 1), id(0, 1, 1)]);
}

#[test]
fn clear_hands_back_the_required_set() {
    let mut view = tree(2, 2, 4, &[1, 100]);
    let _ = view.update(ViewPosition { x: 0, y: 0 });
    let released = view.clear();
    assert_eq!(released.len(), 7);
    assert!(view.required_nodes().is_empty());
}

#[test]
fn best_loaded_falls_back_to_a_coarser_node() {
    let view = tree(3, 1, 2, &[4, 8, 16]);
    let mut atlas = NodeAtlas::new(8, 1);
    assert_eq!(view.best_loaded(&atlas, 3, 5), None);

    let coarse = id(2, 0, 0);
    let middle = id(1, 0, 1);
    let fine = id(0, 1, 2);
    for node in [coarse, middle, fine] {
        assert_eq!(atlas.request(node), Ok(true));
    }
    assert_eq!(view.best_loaded(&atlas, 3, 5), None);

    assert!(atlas.mark_attachment_loaded(coarse, 0));
    assert_eq!(view.best_loaded(&atlas, 3, 5), Some((coarse, 0)));
    assert!(atlas.mark_attachment_loaded(middle, 0));
    assert_eq!(view.best_loaded(&atlas, 3, 5), Some((middle, 1)));
    assert_eq!(view.best_loaded(&atlas, 5, 5), Some((coarse, 0)));
    assert!(atlas.mark_attachment_loaded(fine, 0));
    assert_eq!(view.best_loaded(&atlas, 3, 5), Some((fine, 2)));
    assert_eq!(view.best_loaded(&atlas, 2, 4), Some((fine, 2)));
    assert_eq!(view.best_loaded(&atlas, 1, 5), Some((middle, 1)));

    let _ = atlas.release(fine);
    assert_eq!(view.best_loaded(&atlas, 3, 5), Some((middle, 1)));
}

#[test]
fn best_loaded_is_none_off_the_terrain() {
    let view = tree(2, 1, 2, &[4, 8]);
    let mut atlas = NodeAtlas::new(2, 1);
    let root = id(1, 0, 0);
    assert_eq!(atlas.request(root), Ok(true));
    assert!(atlas.mark_attachment_loaded(root, 0));
    assert_eq!(view.best_loaded(&atlas, 0, 0), Some((root, 0)));
    assert_eq!(view.best_loaded(&atlas, 3, 3), Some((root, 0)));
    assert_eq!(view.best_loaded(&atlas, 4, 0), None);
    assert_eq!(view.best_loaded(&atlas, 0, 4), None);
    assert_eq!(view.best_loaded(&atlas, -1, 0), None);
    assert_eq!(view.best_loaded(&atlas, 0, i64::MIN), None);
    assert_eq!(view.best_loaded(&atlas, i64::MAX, 0), None);
}
