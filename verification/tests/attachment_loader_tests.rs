use bevy::asset::HandleId;
use bevy::render::render_resource::TextureFormat;
use terrain_stream::attachment_loader::{
    finish_loading_attachment_from_disk, node_asset_path, start_loading_attachment_from_disk,
    AttachmentFromDiskLoader,
};
use terrain_stream::node_atlas::{NodeAtlas, NodeState};

fn loader_with_two_attachments() -> AttachmentFromDiskLoader {
    let mut loader = AttachmentFromDiskLoader::default();
    loader.add_attachment(0, "terrain/height".to_string(), TextureFormat::R16Unorm);
    loader.add_attachment(1, "terrain/albedo".to_string(), TextureFormat::Rgba8UnormSrgb);
    loader
}

#[test]
fn asset_path_is_directory_node_and_extension() {
    assert_eq!(node_asset_path("terrain/height", 0), "terrain/height/0.png");
    assert_eq!(node_asset_path("terrain/height", 7), "terrain/height/7.png");
    assert_eq!(node_asset_path("a", 10), "a/10.png");
    assert_eq!(node_asset_path("", 268451847), "/268451847.png");
    assert_eq!(node_asset_path("x/y", u32::MAX), "x/y/4294967295.png");
    assert_eq!(node_asset_path("d", 1000), "d/1000.png");
}

#[test]
fn load_requests_name_one_file_for_each_attachment() {
    let loader = loader_with_two_attachments();
    let mut requests = loader.load_requests(42);
    requests.sort_by_key(|request| request.attachment_index);
    assert_eq!(requests.len(), 2);
    assert_eq!(requests[0].node, 42);
    assert_eq!(requests[0].attachment_index, 0);
    assert_eq!(requests[0].path, "terrain/height/42.png");
    assert_eq!(requests[1].node, 42);
    assert_eq!(requests[1].attachment_index, 1);
    assert_eq!(requests[1].path, "terrain/albedo/42.png");
}

#[test]
fn load_requests_of_an_empty_loader_are_empty() {
    let loader = AttachmentFromDiskLoader::default();
    assert!(loader.load_requests(1).is_empty());
}

#[test]
fn add_attachment_replaces_an_earlier_configuration() {
    let mut loader = AttachmentFromDiskLoader::default();
    loader.add_attachment(3, "old".to_string(), TextureFormat::R16Unorm);
    loader.add_attachment(3, "new".to_string(), TextureFormat::R8Unorm);
    let requests = loader.load_requests(5);
    assert_eq!(requests.len(), 1);
    assert_eq!(requests[0].attachment_index, 3);
    assert_eq!(requests[0].path, "new/5.png");
}

#[test]
fn start_loading_moves_nodes_to_loading_and_plans_their_files() {
    let loader = loader_with_two_attachments();
    let mut atlas = NodeAtlas::new(4, 2);
    assert_eq!(atlas.request(5), Ok(true));
    assert_eq!(atlas.request(6), Ok(true));
    let requests = start_loading_attachment_from_disk(&mut atlas, &loader, &vec![5, 6]);
    assert_eq!(atlas.state_of(5), Some(NodeState::Loading));
    assert_eq!(atlas.state_of(6), Some(NodeState::Loading));
    assert_eq!(requests.len(), 4);
    assert_eq!(requests[0].node, 5);
    assert_eq!(requests[1].node, 5);
    assert_eq!(requests[2].node, 6);
    assert_eq!(requests[3].node, 6);
    assert_ne!(requests[0].attachment_index, requests[1].attachment_index);
    assert_ne!(requests[2].attachment_index, requests[3].attachment_index);
    for request in requests.iter() {
        let dir = if request.attachment_index == 0 { "terrain/height" } else { "terrain/albedo" };
        assert_eq!(request.path, format!("{}/{}.png", dir, request.node));
    }
}

#[test]
fn node_is_loaded_once_every_load_has_finished() {
    let mut loader = loader_with_two_attachments();
    let mut atlas = NodeAtlas::new(4, 2);
    assert_eq!(atlas.request(5), Ok(true));
    let requests = start_loading_attachment_from_disk(&mut atlas, &loader, &vec![5]);
    let mut handles = Vec::new();
    for request in requests.iter() {
        let handle = HandleId::from(request.path.as_str());
        assert!(!loader.load_issued(&mut atlas, request.node, request.attachment_index, handle, false));
        assert!(loader.is_pending(handle));
        handles.push((handle, request.attachment_index));
    }
    assert_eq!(atlas.state_of(5), Some(NodeState::Loading));

    let (first, first_index) = handles[1];
    let done = finish_loading_attachment_from_disk(&mut atlas, &mut loader, first).unwrap();
    assert_eq!(done.node, 5);
    assert_eq!(done.attachment_index, first_index);
    assert!(!done.completed);
    assert!(!loader.is_pending(first));
    assert_eq!(atlas.state_of(5), Some(NodeState::Loading));

    let (second, second_index) = handles[0];
    let done = finish_loading_attachment_from_disk(&mut atlas, &mut loader, second).unwrap();
    assert_eq!(done.attachment_index, second_index);
    assert!(done.completed);
    assert_eq!(atlas.state_of(5), Some(NodeState::Loaded));
    assert_eq!(atlas.drain_load_events(), vec![5]);

    assert!(finish_loading_attachment_from_disk(&mut atlas, &mut loader, second).is_none());
}

#[test]
fn finished_load_carries_the_configured_format() {
    let mut loader = loader_with_two_attachments();
    let mut atlas = NodeAtlas::new(4, 2);
    assert_eq!(atlas.request(5), Ok(true));
    let height = HandleId::from("terrain/height/5.png");
    let albedo = HandleId::from("terrain/albedo/5.png");
    let stray = HandleId::from("terrain/stray/5.png");
    assert!(!loader.load_issued(&mut atlas, 5, 0, height, false));
    assert!(!loader.load_issued(&mut atlas, 5, 1, albedo, false));
    assert!(!loader.load_issued(&mut atlas, 5, 7, stray, false));
    let done = finish_loading_attachment_from_disk(&mut atlas, &mut loader, albedo).unwrap();
    assert_eq!(done.format, Some(TextureFormat::Rgba8UnormSrgb));
    let done = finish_loading_attachment_from_disk(&mut atlas, &mut loader, height).unwrap();
    assert_eq!(done.format, Some(TextureFormat::R16Unorm));
    let done = finish_loading_attachment_from_disk(&mut atlas, &mut loader, stray).unwrap();
    assert_eq!(done.format, None);
    assert_eq!(done.attachment_index, 7);
    assert!(!done.completed);
}

#[test]
fn data_at_hand_is_marked_at_once() {
    let mut loader = loader_with_two_attachments();
    let mut atlas = NodeAtlas::new(4, 2);
    assert_eq!(atlas.request(5), Ok(true));
    let _ = start_loading_attachment_from_disk(&mut atlas, &loader, &vec![5]);
    let height = HandleId::from("terrain/height/5.png");
    let albedo = HandleId::from("terrain/albedo/5.png");
    assert!(!loader.load_issued(&mut atlas, 5, 0, height, true));
    assert!(!loader.is_pending(height));
    assert!(atlas.attachment_loaded(5, 0));
    assert!(loader.load_issued(&mut atlas, 5, 1, albedo, true));
    assert!(!loader.is_pending(albedo));
    assert_eq!(atlas.state_of(5), Some(NodeState::Loaded));
    assert!(finish_loading_attachment_from_disk(&mut atlas, &mut loader, height).is_none());
}

#[test]
fn completions_for_a_released_node_are_stale() {
    let mut loader = loader_with_two_attachments();
    let mut atlas = NodeAtlas::new(4, 2);
    assert_eq!(atlas.request(5), Ok(true));
    let requests = start_loading_attachment_from_disk(&mut atlas, &loader, &vec![5]);
    assert_eq!(requests.len(), 2);
    let mut handles = Vec::new();
    for request in requests.iter() {
        let handle = HandleId::from(request.path.as_str());
        let _ = loader.load_issued(&mut atlas, request.node, request.attachment_index, handle, false);
        handles.push(handle);
    }

    assert_eq!(atlas.release(5), Some(0));
    let released = atlas.drain_unload_events();
    assert_eq!(released, vec![5]);
    loader.drop_released(&released);
    assert_eq!(atlas.free_count(), 4);

    for handle in handles {
        assert!(!loader.is_pending(handle));
        assert!(finish_loading_attachment_from_disk(&mut atlas, &mut loader, handle).is_none());
        assert!(!atlas.contains(5));
        assert_eq!(atlas.free_count(), 4);
        assert_eq!(atlas.resident_count(), 0);
    }
    assert_eq!(atlas.drain_load_events(), Vec::<u32>::new());
}

#[test]
fn completions_for_a_released_node_do_not_touch_the_atlas() {
    let mut loader = loader_with_two_attachments();
    let mut atlas = NodeAtlas::new(4, 2);
    assert_eq!(atlas.request(5), Ok(true));
    assert_eq!(atlas.request(6), Ok(true));
    let height = HandleId::from("terrain/height/5.png");
    let albedo = HandleId::from("terrain/albedo/5.png");
    let _ = loader.load_issued(&mut atlas, 5, 0, height, false);
    let _ = loader.load_issued(&mut atlas, 5, 1, albedo, false);
    assert_eq!(atlas.release(5), Some(0));

    let done = finish_loading_attachment_from_disk(&mut atlas, &mut loader, height).unwrap();
    assert_eq!(done.node, 5);
    assert!(!done.completed);
    let done = finish_loading_attachment_from_disk(&mut atlas, &mut loader, albedo).unwrap();
    assert!(!done.completed);
    assert!(!atlas.contains(5));
    assert_eq!(atlas.free_count(), 3);
    assert_eq!(atlas.resident_count(), 1);
    assert_eq!(atlas.state_of(6), Some(NodeState::Requested));
    assert_eq!(atlas.drain_load_events(), Vec::<u32>::new());
}

#[test]
fn drop_released_keeps_the_loads_of_other_nodes() {
    let mut loader = loader_with_two_attachments();
    let mut atlas = NodeAtlas::new(4, 2);
    let a = HandleId::from("a");
    let b = HandleId::from("b");
    let c = HandleId::from("c");
    let _ = loader.load_issued(&mut atlas, 1, 0, a, false);
    let _ = loader.load_issued(&mut atlas, 2, 0, b, false);
    let _ = loader.load_issued(&mut atlas, 1, 1, c, false);
    loader.drop_released(&vec![1, 3]);
    assert!(!loader.is_pending(a));
    assert!(loader.is_pending(b));
    assert!(!loader.is_pending(c));
    loader.drop_released(&vec![]);
    assert!(loader.is_pending(b));
}

#[test]
fn failed_load_leaves_the_node_loading() {
    let mut loader = loader_with_two_attachments();
    let mut atlas = NodeAtlas::new(4, 2);
    assert_eq!(atlas.request(5), Ok(true));
    let _ = start_loading_attachment_from_disk(&mut atlas, &loader, &vec![5]);
    let height = HandleId::from("terrain/height/5.png");
    let albedo = HandleId::from("terrain/albedo/5.png");
    let _ = loader.load_issued(&mut atlas, 5, 0, height, false);
    let _ = loader.load_issued(&mut atlas, 5, 1, albedo, false);
    assert_eq!(loader.load_failed(height), Some((5, 0)));
    assert_eq!(loader.load_failed(height), None);
    assert!(!loader.is_pending(height));
    let done = finish_loading_attachment_from_disk(&mut atlas, &mut loader, albedo).unwrap();
    assert!(!done.completed);
    assert_eq!(atlas.state_of(5), Some(NodeState::Loading));
    assert!(!atlas.attachment_loaded(5, 0));
    assert!(atlas.attachment_loaded(5, 1));
}

#[test]
fn unknown_handle_is_ignored() {
    let mut loader = loader_with_two_attachments();
    let mut atlas = NodeAtlas::new(4, 2);
    assert_eq!(atlas.request(5), Ok(true));
    let unknown = HandleId::from("somewhere/else.png");
    assert!(finish_loading_attachment_from_disk(&mut atlas, &mut loader, unknown).is_none());
    assert_eq!(atlas.state_of(5), Some(NodeState::Requested));
}
