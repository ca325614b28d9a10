use terrain_stream::node_id::{decode, encode, NodeId};
use terrain_stream::selection::{ConfigError, ViewConfig, ViewPosition};

fn config(lods: u32, roots: u32, leaf: u32, distances: &[u32], circular: bool) -> ViewConfig {
    ViewConfig {
        lod_count: lods,
        root_count: roots,
        leaf_size: leaf,
        load_distance: distances.to_vec(),
        circular,
    }
}

fn id(lod: u32, x: u32, y: u32) -> NodeId {
    encode(lod, x, y).unwrap()
}

fn holds(cfg: &ViewConfig, node: NodeId, wx: i64, wy: i64) -> bool {
    let c = decode(node);
    let side = (cfg.leaf_size as i64) << c.lod;
    let (x, y) = (c.x as i64, c.y as i64);
    x * side <= wx && wx < (x + 1) * side && y * side <= wy && wy < (y + 1) * side
}

fn sees(cfg: &ViewConfig, view: ViewPosition, wx: i64, wy: i64) -> bool {
    let d = *cfg.load_distance.last().unwrap() as i64;
    let (gx, gy) = ((wx - view.x).abs(), (wy - view.y).abs());
    if cfg.circular {
        gx * gx + gy * gy < d * d
    } else {
        gx < d && gy < d
    }
}

fn assert_partition(cfg: &ViewConfig, view: ViewPosition) {
    assert_eq!(cfg.validate(), Ok(()));
    let required = cfg.required_nodes(view);
    let extent = ((cfg.root_count * cfg.leaf_size) as i64) << (cfg.lod_count - 1);
    for a in 0..required.len() {
        for b in 0..a {
            assert_ne!(required[a], required[b]);
        }
    }
    for wy in 0..extent {
        for wx in 0..extent {
            let count = required.iter().filter(|&&n| holds(cfg, n, wx, wy)).count();
            if sees(cfg, view, wx, wy) {
                assert_eq!(count, 1, "location ({wx}, {wy})");
            } else {
                assert!(count <= 1, "location ({wx}, {wy})");
            }
        }
    }
}

#[test]
fn validate_accepts_a_usable_configuration() {
    assert_eq!(config(3, 2, 4, &[8, 16, 32], false).validate(), Ok(()));
    assert_eq!(config(1, 16384, 1, &[0], true).validate(), Ok(()));
    assert_eq!(config(15, 1, 1, &[0; 15], true).validate(), Ok(()));
    assert_eq!(config(16, 1, u32::MAX, &[u32::MAX; 16], true).validate(), Err(ConfigError::GridSize));
}

#[test]
fn validate_reports_the_first_defect() {
    assert_eq!(config(0, 0, 0, &[], false).validate(), Err(ConfigError::LodCount));
    assert_eq!(config(17, 1, 1, &[1; 17], false).validate(), Err(ConfigError::LodCount));
    assert_eq!(config(2, 0, 0, &[], false).validate(), Err(ConfigError::GridSize));
    assert_eq!(config(2, 8193, 1, &[1, 2], false).validate(), Err(ConfigError::GridSize));
    assert_eq!(config(2, 8192, 0, &[1], false).validate(), Err(ConfigError::LeafSize));
    assert_eq!(config(2, 8192, 1, &[1], false).validate(), Err(ConfigError::LoadDistances));
    assert_eq!(config(2, 8192, 1, &[1, 2, 3], false).validate(), Err(ConfigError::LoadDistances));
    assert_eq!(config(2, 8192, 1, &[1, 2], false).validate(), Ok(()));
}

#[test]
fn single_level_requires_the_visible_root_tiles() {
    let cfg = config(1, 3, 10, &[5], false);
    let view = ViewPosition { x: 12, y: 27 };
    assert_eq!(cfg.required_nodes(view), vec![id(0, 0, 2), id(0, 1, 2)]);
}

#[test]
fn far_viewer_requires_nothing() {
    let cfg = config(2, 2, 4, &[2, 4], false);
    assert_eq!(cfg.required_nodes(ViewPosition { x: -4, y: 3 }), Vec::<NodeId>::new());
    assert_eq!(cfg.required_nodes(ViewPosition { x: 19, y: 3 }), Vec::<NodeId>::new());
    assert_eq!(cfg.required_nodes(ViewPosition { x: i64::MIN, y: i64::MAX }), Vec::<NodeId>::new());
    assert_eq!(cfg.required_nodes(ViewPosition { x: -3, y: 3 }), vec![id(1, 0, 0)]);
}

#[test]
fn zero_distance_requires_nothing() {
    let cfg = config(2, 2, 4, &[0, 0], false);
    assert_eq!(cfg.required_nodes(ViewPosition { x: 3, y: 3 }), Vec::<NodeId>::new());
}

#[test]
fn near_tiles_are_refined_and_far_tiles_are_not() {
    let cfg = config(2, 2, 4, &[1, 100], false);
    let view = ViewPosition { x: 0, y: 0 };
    assert_eq!(
        cfg.required_nodes(view),
        vec![id(0, 0, 0), id(0, 1, 0), id(0, 0, 1), id(0, 1, 1), id(1, 1, 0), id(1, 0, 1), id(1, 1, 1)]
    );
}

#[test]
fn circular_metric_cuts_the_corners() {
    let square = config(1, 3, 1, &[2], false);
    let round = config(1, 3, 1, &[2], true);
    let view = ViewPosition { x: 1, y: 1 };
    assert_eq!(square.required_nodes(view).len(), 9);
    assert_eq!(
        round.required_nodes(view),
        vec![id(0, 0, 0), id(0, 1, 0), id(0, 2, 0), id(0, 0, 1), id(0, 1, 1), id(0, 2, 1), id(0, 0, 2), id(0, 1, 2), id(0, 2, 2)]
    );
    let wide = config(1, 7, 1, &[4], true);
    let centre = ViewPosition { x: 3, y: 3 };
    let required = wide.required_nodes(centre);
    assert!(!required.contains(&id(0, 0, 0)));
    assert!(!required.contains(&id(0, 6, 6)));
    assert!(required.contains(&id(0, 0, 1)));
    assert!(required.contains(&id(0, 0, 3)));
    assert_eq!(required.len(), 45);
    assert_eq!(config(1, 7, 1, &[4], false).required_nodes(centre).len(), 49);
}

#[test]
fn every_visible_location_lies_on_one_required_tile() {
    let cfg = config(3, 2, 2, &[3, 6, 11], false);
    for &(x, y) in &[(5, 9), (0, 0), (15, 15), (-4, 7), (8, 20), (7, 8)] {
        assert_partition(&cfg, ViewPosition { x, y });
    }
}

#[test]
fn every_visible_location_lies_on_one_required_tile_in_the_circular_metric() {
    let cfg = config(3, 2, 2, &[3, 6, 11], true);
    for &(x, y) in &[(5, 9), (0, 0), (15, 15), (-4, 7), (8, 20), (7, 8)] {
        assert_partition(&cfg, ViewPosition { x, y });
    }
}

#[test]
fn partition_holds_for_distances_that_do_not_grow() {
    let cfg = config(4, 1, 1, &[7, 2, 9, 5], false);
    for &(x, y) in &[(3, 3), (0, 7), (-2, 4), (9, 9)] {
        assert_partition(&cfg, ViewPosition { x, y });
    }
}

#[test]
fn required_nodes_are_within_the_grid() {
    let cfg = config(3, 3, 5, &[4, 12, 40], true);
    let required = cfg.required_nodes(ViewPosition { x: 31, y: 17 });
    assert!(!required.is_empty());
    for &node in required.iter() {
        let c = decode(node);
        assert!(c.lod < 3);
        assert!(c.x < (3 << (2 - c.lod)));
        assert!(c.y < (3 << (2 - c.lod)));
    }
}

#[test]
fn largest_grid_is_selected_near_the_viewer_only() {
    let cfg = config(15, 1, 1, &[1, 1, 1, 1, 1, 1, 1, 1, 1, 1, 1, 1, 1, 1, 1], false);
    let required = cfg.required_nodes(ViewPosition { x: 16383, y: 16383 });
    assert_eq!(required, vec![id(0, 16383, 16383)]);
    let wide = config(15, 1, 1, &[1, 1, 1, 1, 1, 1, 1, 1, 1, 1, 1, 1, 1, 1, 20000], false);
    let required = wide.required_nodes(ViewPosition { x: 0, y: 0 });
    assert_eq!(required.len(), 3 * 13 + 4);
    assert!(required.contains(&id(0, 0, 0)));
    assert!(required.contains(&id(13, 1, 1)));
}
