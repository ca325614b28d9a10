use terrain_stream::node_id::{
    calc_node_id, decode, encode, MalformedNodeId, NodeCoordinate, INVALID_NODE_ID,
};

#[test]
fn encode_packs_the_three_fields() {
    assert_eq!(encode(0, 0, 0), Ok(0));
    assert_eq!(encode(0, 0, 1), Ok(1));
    assert_eq!(encode(0, 1, 0), Ok(0x4000));
    assert_eq!(encode(1, 0, 0), Ok(0x1000_0000));
    assert_eq!(encode(3, 5, 7), Ok(0x3001_4007));
    assert_eq!(encode(15, 16383, 16383), Ok(0xFFFF_FFFF));
}

#[test]
fn decode_gives_back_what_was_encoded() {
    for &(lod, x, y) in &[(0, 0, 0), (1, 2, 3), (15, 16383, 0), (7, 0, 16383), (4, 8191, 8192)] {
        let id = encode(lod, x, y).unwrap();
        assert_eq!(decode(id), NodeCoordinate { lod, x, y });
    }
}

#[test]
fn encode_gives_back_what_was_decoded() {
    for &id in &[0u32, 1, 0x4000, 0x1000_0000, 0x3001_4007, 0xDEAD_BEEF, INVALID_NODE_ID] {
        let c = decode(id);
        assert!(c.lod < 16 && c.x < 16384 && c.y < 16384);
        assert_eq!(encode(c.lod, c.x, c.y), Ok(id));
        assert_eq!(c.node_id(), id);
    }
}

#[test]
fn encode_rejects_components_out_of_bounds() {
    assert_eq!(encode(16, 0, 0), Err(MalformedNodeId { lod: 16, x: 0, y: 0 }));
    assert_eq!(encode(0, 16384, 0), Err(MalformedNodeId { lod: 0, x: 16384, y: 0 }));
    assert_eq!(encode(0, 0, 16384), Err(MalformedNodeId { lod: 0, x: 0, y: 16384 }));
    assert!(encode(15, 16383, 16383).is_ok());
}

#[test]
fn calc_node_id_packs_components_within_bounds() {
    assert_eq!(calc_node_id(0, 0, 0), 0);
    assert_eq!(calc_node_id(2, 3, 4), 0x2000_C004);
    assert_eq!(calc_node_id(1, 5, 6), 0x1001_4006);
    assert_eq!(calc_node_id(15, 16383, 16383), 0xFFFF_FFFF);
    assert_eq!(decode(calc_node_id(9, 100, 200)), NodeCoordinate { lod: 9, x: 100, y: 200 });
}

#[test]
fn encode_never_gives_the_id_of_another_tile() {
    assert!(encode(16, 0, 0).is_err());
    assert!(encode(17, 16384 + 5, 16384 + 6).is_err());
    assert!(encode(1, 16384 + 5, 6).is_err());
    assert!(encode(1, 5, 16384 + 6).is_err());
    assert!(encode(u32::MAX, u32::MAX, u32::MAX).is_err());
    assert_eq!(encode(1, 5, 6), Ok(calc_node_id(1, 5, 6)));
}

#[test]
fn coordinate_from_node_id() {
    let c = NodeCoordinate::from(0x3001_4007);
    assert_eq!(c, NodeCoordinate { lod: 3, x: 5, y: 7 });
    let all = NodeCoordinate::from(INVALID_NODE_ID);
    assert_eq!(all, NodeCoordinate { lod: 15, x: 16383, y: 16383 });
}
