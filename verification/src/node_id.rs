//! Identification of terrain nodes by a packed 32-bit key.
//!
//! The key holds the level of detail in its top four bits, then the column
//! and the row of the node in fourteen bits each:
//!
//! ```text
//! lod |  x |  y
//!   4 | 14 | 14
//! ```

use vstd::prelude::*;
use vstd::std_specs::convert::FromSpecImpl;

verus! {

/// A globally unique identifier of a node.
pub type NodeId = u32;

/// The identifier that stands for "no node".
pub const INVALID_NODE_ID: NodeId = 0xFFFF_FFFF;

/// Identifier of a node (and its attachments) inside the node atlas.
pub type AtlasIndex = u16;

/// The atlas index that stands for "not assigned a slot".
pub const INVALID_ATLAS_INDEX: AtlasIndex = 0xFFFF;

/// The level that stands for "no level".
pub const INVALID_LOD: u16 = 0xFFFF;

/// Identifier of an attachment inside the node atlas.
pub type AttachmentIndex = usize;

/// Number of levels that a node identifier can tell apart.
pub const LOD_LIMIT: u32 = 16;

/// Number of columns, and of rows, that a node identifier can tell apart.
pub const GRID_LIMIT: u32 = 16384;

/// The global coordinate of a node.
#[derive(Clone, Copy, Debug, PartialEq, Eq, Structural)]
pub struct NodeCoordinate {
    /// The lod of the node, where 0 is the highest level of detail with the
    /// smallest size and highest resolution.
    pub lod: u32,
    /// The x position of the node in node sizes.
    pub x: u32,
    /// The y position of the node in node sizes.
    pub y: u32,
}

/// A coordinate whose components do not fit the bit fields of a node identifier.
#[derive(Clone, Copy, Debug, PartialEq, Eq, Structural)]
pub struct MalformedNodeId {
    /// The level that was asked for.
    pub lod: u32,
    /// The column that was asked for.
    pub x: u32,
    /// The row that was asked for.
    pub y: u32,
}

/// Whether `(lod, x, y)` fits the bit fields of a node identifier.
pub open spec fn in_bounds(lod: int, x: int, y: int) -> bool {
    &&& 0 <= lod < 16
    &&& 0 <= x < 16384
    &&& 0 <= y < 16384
}

/// The packed key of the node at `(lod, x, y)`.
pub open spec fn node_key(lod: int, x: int, y: int) -> int {
    lod * 0x1000_0000 + x * 0x4000 + y
}

/// The level that the key `id` holds.
pub open spec fn key_lod(id: int) -> int {
    id / 0x1000_0000
}

/// The column that the key `id` holds.
pub open spec fn key_x(id: int) -> int {
    (id / 0x4000) % 0x4000
}

/// The row that the key `id` holds.
pub open spec fn key_y(id: int) -> int {
    id % 0x4000
}

impl NodeCoordinate {
    /// Whether the coordinate can be packed without loss.
    pub open spec fn valid(self) -> bool {
        in_bounds(self.lod as int, self.x as int, self.y as int)
    }

    /// The identifier of the node at this coordinate.
    pub open spec fn key(self) -> int {
        node_key(self.lod as int, self.x as int, self.y as int)
    }

    /// The coordinate that the identifier `id` holds.
    pub open spec fn of(id: NodeId) -> NodeCoordinate {
        NodeCoordinate {
            lod: key_lod(id as int) as u32,
            x: key_x(id as int) as u32,
            y: key_y(id as int) as u32,
        }
    }

    /// The identifier of the node at this coordinate.
    pub fn node_id(&self) -> (id: NodeId)
        requires
            self.valid(),
        ensures
            id as int == self.key(),
            NodeCoordinate::of(id) == *self,
    {
        proof {
            lemma_decode_encode(self.lod as int, self.x as int, self.y as int);
        }
        calc_node_id(self.lod, self.x, self.y)
    }
}

impl FromSpecImpl<NodeId> for NodeCoordinate {
    open spec fn obeys_from_spec() -> bool {
        true
    }

    open spec fn from_spec(id: NodeId) -> NodeCoordinate {
        NodeCoordinate::of(id)
    }
}

impl From<NodeId> for NodeCoordinate {
    /// Determines the coordinate of the node based on its id.
    fn from(id: NodeId) -> (coordinate: NodeCoordinate)
        ensures
            coordinate == NodeCoordinate::of(id),
            coordinate.valid(),
            coordinate.key() == id as int,
    {
        let lod: u32 = (id >> 28) & 0xF;
        let x: u32 = (id >> 14) & 0x3FFF;
        let y: u32 = id & 0x3FFF;
        assert(lod == id / 0x1000_0000 && lod < 16) by (bit_vector)
            requires
                lod == (id >> 28) & 0xF,
        ;
        assert(x == (id / 0x4000) % 0x4000) by (bit_vector)
            requires
                x == (id >> 14) & 0x3FFF,
        ;
        assert(y == id % 0x4000) by (bit_vector)
            requires
                y == id & 0x3FFF,
        ;
        proof {
            lemma_encode_decode(id);
        }
        NodeCoordinate { lod, x, y }
    }
}

/// Calculates the node identifier from the node coordinate. Every component
/// has to fit its bit field; callers that cannot rule out a component beyond
/// it use [`encode`], which turns such a coordinate away.
pub fn calc_node_id(lod: u32, x: u32, y: u32) -> (id: NodeId)
    requires
        in_bounds(lod as int, x as int, y as int),
    ensures
        id as int == node_key(lod as int, x as int, y as int),
{
    let id: u32 = lod << 28 | x << 14 | y;
    assert(id as int == lod * 0x1000_0000 + x * 0x4000 + y) by (bit_vector)
        requires
            id == lod << 28 | x << 14 | y,
            lod < 16,
            x < 16384,
            y < 16384,
    ;
    id
}

/// Packs a coordinate into a node identifier, provided that every component
/// fits its bit field.
pub fn encode(lod: u32, x: u32, y: u32) -> (packed: Result<NodeId, MalformedNodeId>)
    ensures
        packed is Ok <==> in_bounds(lod as int, x as int, y as int),
        packed is Ok ==> packed->Ok_0 as int == node_key(lod as int, x as int, y as int),
        packed is Ok ==> NodeCoordinate::of(packed->Ok_0) == (NodeCoordinate { lod, x, y }),
        packed is Err ==> packed->Err_0 == (MalformedNodeId { lod, x, y }),
{
    if lod < LOD_LIMIT && x < GRID_LIMIT && y < GRID_LIMIT {
        proof {
            lemma_decode_encode(lod as int, x as int, y as int);
        }
        Ok(calc_node_id(lod, x, y))
    } else {
        Err(MalformedNodeId { lod, x, y })
    }
}

/// Unpacks a node identifier. Every identifier holds a coordinate within
/// bounds, so this never fails.
pub fn decode(id: NodeId) -> (coordinate: NodeCoordinate)
    ensures
        coordinate == NodeCoordinate::of(id),
        coordinate.valid(),
        coordinate.key() == id as int,
{
    NodeCoordinate::from(id)
}

/// Unpacking a packed coordinate gives the coordinate back: for every
/// `(lod, x, y)` within bounds the key fits 32 bits and holds exactly
/// `lod`, `x` and `y`.
pub proof fn lemma_decode_encode(lod: int, x: int, y: int)
    requires
        in_bounds(lod, x, y),
    ensures
        0 <= node_key(lod, x, y) <= 0xFFFF_FFFF,
        key_lod(node_key(lod, x, y)) == lod,
        key_x(node_key(lod, x, y)) == x,
        key_y(node_key(lod, x, y)) == y,
        NodeCoordinate::of(node_key(lod, x, y) as u32) == (NodeCoordinate {
            lod: lod as u32,
            x: x as u32,
            y: y as u32,
        }),
{
}

/// Packing an unpacked identifier gives the identifier back, and what is
/// unpacked is always within bounds: the two directions together make the
/// packing a bijection between coordinates within bounds and identifiers.
pub proof fn lemma_encode_decode(id: NodeId)
    ensures
        in_bounds(key_lod(id as int), key_x(id as int), key_y(id as int)),
        node_key(key_lod(id as int), key_x(id as int), key_y(id as int)) == id as int,
        NodeCoordinate::of(id).valid(),
        NodeCoordinate::of(id).key() == id as int,
{
}

/// Two coordinates within bounds have the same identifier only if they are
/// the same coordinate.
pub proof fn lemma_node_key_injective(a: NodeCoordinate, b: NodeCoordinate)
    requires
        a.valid(),
        b.valid(),
        a.key() == b.key(),
    ensures
        a == b,
{
    lemma_decode_encode(a.lod as int, a.x as int, a.y as int);
    lemma_decode_encode(b.lod as int, b.x as int, b.y as int);
}

} // verus!
