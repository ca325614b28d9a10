//! Level-of-detail selection: which nodes a viewer requires.
//!
//! The terrain is a square grid of root tiles at the coarsest level. Every
//! tile above level 0 can be refined into its four children, each with half
//! the side. Distances are measured in world units between the viewer and the
//! nearest point of a tile.
//!
//! A tile is *visible* if it lies within the load distance of the coarsest
//! level, and it is *refined* if it lies within the load distance of the next
//! finer level. The required set holds every visible tile that can be reached
//! from a root tile through refined tiles and is not refined itself. It cuts
//! the visible part of the terrain into tiles without gap and without overlap,
//! finer ones near the viewer and coarser ones further out.

use crate::node_id::{calc_node_id, node_key, NodeId};
use crate::partition::lemma_required_exact;
use vstd::prelude::*;

verus! {

/// Two to the power of `l`: how many times finer level 0 is than level `l`.
pub open spec fn scale(l: nat) -> int
    decreases l,
{
    if l == 0 {
        1
    } else {
        2 * scale((l - 1) as nat)
    }
}

/// The index of the tile `k` levels up that contains the tile with index `a`.
pub open spec fn ancestor(a: int, k: nat) -> int
    decreases k,
{
    if k == 0 {
        a
    } else {
        ancestor(a / 2, (k - 1) as nat)
    }
}

/// The distance from the coordinate `v` to the nearest of the coordinates
/// `lo`, .., `hi - 1`.
pub open spec fn gap(v: int, lo: int, hi: int) -> int {
    if v < lo {
        lo - v
    } else if v >= hi {
        v - hi + 1
    } else {
        0
    }
}

/// Whether a point at the axis distances `gx` and `gy` is closer than `d`:
/// in the circular metric by its Euclidean distance, else by the larger of
/// the two axis distances.
pub open spec fn within(gx: int, gy: int, d: int, circular: bool) -> bool {
    if circular {
        gx * gx + gy * gy < d * d
    } else {
        gx < d && gy < d
    }
}

/// The identifier of the tile at `(l, x, y)`.
pub open spec fn tile_id(l: int, x: int, y: int) -> NodeId {
    node_key(l, x, y) as NodeId
}

/// Where a viewer stands, in world units.
#[derive(Clone, Copy, Debug, PartialEq, Eq, Structural)]
pub struct ViewPosition {
    /// The position along the columns of the terrain.
    pub x: i64,
    /// The position along the rows of the terrain.
    pub y: i64,
}

/// How one view selects its nodes.
#[derive(Clone, Debug)]
pub struct ViewConfig {
    /// The number of levels of detail, level 0 being the finest.
    pub lod_count: u32,
    /// The number of tiles along each side of the terrain at the coarsest level.
    pub root_count: u32,
    /// The side of a tile of level 0, in world units.
    pub leaf_size: u32,
    /// For each level, the distance in world units below which the viewer
    /// needs that level. The distance of the coarsest level bounds what the
    /// viewer sees at all.
    pub load_distance: Vec<u32>,
    /// Whether distances are Euclidean rather than the larger axis distance.
    pub circular: bool,
}

/// Why a view configuration is not usable.
#[derive(Clone, Copy, Debug, PartialEq, Eq, Structural)]
pub enum ConfigError {
    /// There is no level, or there are more levels than an identifier can hold.
    LodCount,
    /// There is no root tile, or the finest level has more tiles along a side
    /// than an identifier can hold.
    GridSize,
    /// A tile of level 0 has no extent.
    LeafSize,
    /// The load distances are not one for each level.
    LoadDistances,
}

impl ViewConfig {
    /// The coarsest level.
    pub open spec fn top(&self) -> int {
        self.lod_count - 1
    }

    /// The side of a tile of level `l`, in world units.
    pub open spec fn side(&self, l: int) -> int {
        self.leaf_size * scale(l as nat)
    }

    /// The number of tiles along each side of the terrain at level `l`.
    pub open spec fn grid(&self, l: int) -> int {
        self.root_count * scale((self.top() - l) as nat)
    }

    /// The load distance of level `l`.
    pub open spec fn range(&self, l: int) -> int {
        self.load_distance@[l] as int
    }

    /// Whether the levels are at least one and at most sixteen.
    pub open spec fn lod_count_ok(&self) -> bool {
        1 <= self.lod_count <= 16
    }

    /// Whether the finest level has at least one and at most 16384 tiles
    /// along each side.
    pub open spec fn grid_ok(&self) -> bool {
        1 <= self.root_count && self.root_count * scale(self.top() as nat) <= 16384
    }

    /// Whether the configuration can be used: every tile of every level has
    /// an identifier, and every level has a load distance.
    pub open spec fn wf(&self) -> bool {
        &&& self.lod_count_ok()
        &&& self.grid_ok()
        &&& self.leaf_size >= 1
        &&& self.load_distance@.len() == self.lod_count
    }

    /// What is wrong with the configuration, the first of the defects in the
    /// order of [`ConfigError`], if it has one.
    pub open spec fn defect(&self) -> Option<ConfigError> {
        if !self.lod_count_ok() {
            Some(ConfigError::LodCount)
        } else if !self.grid_ok() {
            Some(ConfigError::GridSize)
        } else if self.leaf_size < 1 {
            Some(ConfigError::LeafSize)
        } else if self.load_distance@.len() != self.lod_count {
            Some(ConfigError::LoadDistances)
        } else {
            None
        }
    }

    /// Whether `(l, x, y)` is a tile of the terrain.
    pub open spec fn in_grid(&self, l: int, x: int, y: int) -> bool {
        &&& 0 <= l <= self.top()
        &&& 0 <= x < self.grid(l)
        &&& 0 <= y < self.grid(l)
    }

    /// Whether the viewer is closer than `d` to the tile `(l, x, y)`.
    pub open spec fn near(&self, view: ViewPosition, l: int, x: int, y: int, d: int) -> bool {
        within(
            gap(view.x as int, x * self.side(l), (x + 1) * self.side(l)),
            gap(view.y as int, y * self.side(l), (y + 1) * self.side(l)),
            d,
            self.circular,
        )
    }

    /// Whether the viewer sees the tile `(l, x, y)`: it is closer than the
    /// load distance of the coarsest level.
    pub open spec fn visible(&self, view: ViewPosition, l: int, x: int, y: int) -> bool {
        self.near(view, l, x, y, self.range(self.top()))
    }

    /// Whether the tile `(l, x, y)` is too coarse for the viewer: it is
    /// closer than the load distance of the next finer level.
    pub open spec fn refines(&self, view: ViewPosition, l: int, x: int, y: int) -> bool {
        l >= 1 && self.near(view, l, x, y, self.range(l - 1))
    }

    /// Whether the selection comes to the tile `(l, x, y)`: it is a visible
    /// tile of the terrain, at the coarsest level or with a parent that the
    /// selection comes to and refines.
    pub open spec fn reached(&self, view: ViewPosition, l: int, x: int, y: int) -> bool
        decreases self.top() - l,
    {
        if !self.in_grid(l, x, y) || !self.visible(view, l, x, y) {
            false
        } else if l == self.top() {
            true
        } else {
            self.reached(view, l + 1, x / 2, y / 2) && self.refines(view, l + 1, x / 2, y / 2)
        }
    }

    /// Whether the viewer requires the tile `(l, x, y)`: the selection comes
    /// to it and does not refine it.
    pub open spec fn selected(&self, view: ViewPosition, l: int, x: int, y: int) -> bool {
        self.reached(view, l, x, y) && !self.refines(view, l, x, y)
    }

    /// The part of the subtree below the child `(l, x, y)` of a refined tile
    /// that the viewer requires: nothing where the child is out of sight.
    pub open spec fn branch(&self, view: ViewPosition, l: int, x: int, y: int) -> Seq<NodeId>
        decreases l, 1int,
    {
        if l >= 0 && self.visible(view, l, x, y) {
            self.subtree(view, l, x, y)
        } else {
            Seq::empty()
        }
    }

    /// The nodes that the viewer requires in the subtree of the tile
    /// `(l, x, y)`, children in the order of rows, then columns.
    pub open spec fn subtree(&self, view: ViewPosition, l: int, x: int, y: int) -> Seq<NodeId>
        decreases l, 0int,
    {
        if l <= 0 || !self.refines(view, l, x, y) {
            seq![tile_id(l, x, y)]
        } else {
            self.branch(view, l - 1, 2 * x, 2 * y) + self.branch(view, l - 1, 2 * x + 1, 2 * y)
                + self.branch(view, l - 1, 2 * x, 2 * y + 1) + self.branch(
                view,
                l - 1,
                2 * x + 1,
                2 * y + 1,
            )
        }
    }

    /// The nodes that the viewer requires below the first `columns` root
    /// tiles of row `y`.
    pub open spec fn row_prefix(&self, view: ViewPosition, y: int, columns: int) -> Seq<NodeId>
        decreases columns,
    {
        if columns <= 0 {
            Seq::empty()
        } else {
            self.row_prefix(view, y, columns - 1) + self.branch(
                view,
                self.top(),
                columns - 1,
                y,
            )
        }
    }

    /// The nodes that the viewer requires below the first `rows` rows of
    /// root tiles.
    pub open spec fn rows_prefix(&self, view: ViewPosition, rows: int) -> Seq<NodeId>
        decreases rows,
    {
        if rows <= 0 {
            Seq::empty()
        } else {
            self.rows_prefix(view, rows - 1) + self.row_prefix(
                view,
                rows - 1,
                self.root_count as int,
            )
        }
    }

    /// The required set of the viewer as a sequence: root tiles row by row,
    /// and below each root tile its subtree.
    pub open spec fn required(&self, view: ViewPosition) -> Seq<NodeId> {
        self.rows_prefix(view, self.root_count as int)
    }
}

/// The scale is positive and doubles from each level to the next coarser one.
pub proof fn lemma_scale(l: nat)
    ensures
        scale(l) >= 1,
        scale(l + 1) == 2 * scale(l),
    decreases l,
{
    if l > 0 {
        lemma_scale((l - 1) as nat);
    }
    reveal_with_fuel(scale, 2);
}

/// The scale does not shrink towards coarser levels.
pub proof fn lemma_scale_monotone(a: nat, b: nat)
    requires
        a <= b,
    ensures
        scale(a) <= scale(b),
    decreases b,
{
    lemma_scale(a);
    if a < b {
        lemma_scale_monotone(a, (b - 1) as nat);
        lemma_scale((b - 1) as nat);
    }
}

/// Within sixteen levels the scale stays at or below 32768.
pub proof fn lemma_scale_bound(l: nat)
    requires
        l <= 15,
    ensures
        1 <= scale(l) <= 32768,
{
    lemma_scale(l);
    lemma_scale_monotone(l, 15);
    assert(scale(15) == 32768) by {
        reveal_with_fuel(scale, 16);
    }
}

/// In a usable configuration the sides of the tiles are between 1 and 2^47
/// world units and double from level to level, and no level has more than
/// 16384 tiles along a side, each level twice as many as the next coarser.
pub proof fn lemma_levels(cfg: ViewConfig, l: int)
    requires
        cfg.wf(),
        0 <= l <= cfg.top(),
    ensures
        1 <= cfg.side(l) <= 0x8000_0000_0000,
        1 <= cfg.grid(l) <= 16384,
        l >= 1 ==> cfg.side(l) == 2 * cfg.side(l - 1),
        l >= 1 ==> cfg.grid(l - 1) == 2 * cfg.grid(l),
        cfg.grid(cfg.top()) == cfg.root_count,
{
    let leaf = cfg.leaf_size as int;
    let root = cfg.root_count as int;
    let s = scale(l as nat);
    let g = scale((cfg.top() - l) as nat);
    let g_top = scale(cfg.top() as nat);
    lemma_scale(l as nat);
    lemma_scale((cfg.top() - l) as nat);
    lemma_scale_bound(l as nat);
    lemma_scale_monotone((cfg.top() - l) as nat, cfg.top() as nat);
    assert(1 <= leaf * s <= 0x8000_0000_0000) by (nonlinear_arith)
        requires
            1 <= leaf <= 0xFFFF_FFFF,
            1 <= s <= 32768,
    ;
    assert(1 <= root * g <= 16384) by (nonlinear_arith)
        requires
            1 <= root,
            1 <= g <= g_top,
            root * g_top <= 16384,
    ;
    if l >= 1 {
        let s1 = scale((l - 1) as nat);
        lemma_scale((l - 1) as nat);
        assert(leaf * (2 * s1) == 2 * (leaf * s1)) by (nonlinear_arith);
        assert(root * (2 * g) == 2 * (root * g)) by (nonlinear_arith);
    }
    assert(scale(0) == 1);
    assert(root * 1 == root);
}

/// The distance from `v` to the tile with index `index` and side `side`.
fn axis_gap(v: i64, index: u32, side: u64) -> (g: u64)
    requires
        index < 16384,
        1 <= side <= 0x8000_0000_0000,
    ensures
        g as int == gap(v as int, index * side, (index + 1) * side),
{
    assert(0 <= index * side && (index + 1) * side <= 0x2000_0000_0000_0000) by (nonlinear_arith)
        requires
            0 <= index < 16384,
            1 <= side <= 0x8000_0000_0000,
    ;
    assert((index + 1) * side == index * side + side) by (nonlinear_arith);
    let lo: i128 = (index as i128) * (side as i128);
    let hi: i128 = lo + (side as i128);
    let p: i128 = v as i128;
    if p < lo {
        (lo - p) as u64
    } else if p >= hi {
        (p - hi + 1) as u64
    } else {
        0
    }
}

/// Whether a point at the axis distances `gx` and `gy` is closer than `d`.
fn closer_than(gx: u64, gy: u64, d: u32, circular: bool) -> (closer: bool)
    ensures
        closer == within(gx as int, gy as int, d as int, circular),
{
    if gx >= d as u64 || gy >= d as u64 {
        assert(gx * gx + gy * gy >= d * d) by (nonlinear_arith)
            requires
                gx >= d || gy >= d,
                gx >= 0,
                gy >= 0,
                d >= 0,
        ;
        false
    } else if circular {
        assert(gx * gx <= 0xFFFF_FFFF * 0xFFFF_FFFF && gy * gy <= 0xFFFF_FFFF * 0xFFFF_FFFF && d
            * d <= 0xFFFF_FFFF * 0xFFFF_FFFF) by (nonlinear_arith)
            requires
                0 <= gx < d,
                0 <= gy < d,
                d <= 0xFFFF_FFFF,
        ;
        let sx: u128 = (gx as u128) * (gx as u128);
        let sy: u128 = (gy as u128) * (gy as u128);
        let sd: u128 = (d as u128) * (d as u128);
        sx + sy < sd
    } else {
        true
    }
}

impl ViewConfig {
    /// Validates the configuration. It is usable exactly when this returns
    /// `Ok`; otherwise the first defect is reported.
    pub fn validate(&self) -> (validated: Result<(), ConfigError>)
        ensures
            validated is Ok <==> self.wf(),
            validated is Err ==> self.defect() == Some(validated->Err_0),
            validated is Ok ==> self.defect() is None,
    {
        if self.lod_count < 1 || self.lod_count > 16 {
            return Err(ConfigError::LodCount);
        }
        let top: u32 = self.lod_count - 1;
        let mut factor: u64 = 1;
        let mut l: u32 = 0;
        while l < top
            invariant
                l <= top <= 15,
                factor as int == scale(l as nat),
                1 <= factor <= 32768,
            decreases top - l,
        {
            proof {
                lemma_scale(l as nat);
                lemma_scale_bound((l + 1) as nat);
            }
            factor = factor * 2;
            l += 1;
        }
        assert((self.root_count as u64) * factor <= 0xFFFF_FFFF * 32768) by (nonlinear_arith)
            requires
                self.root_count <= 0xFFFF_FFFF,
                factor <= 32768,
        ;
        if self.root_count < 1 || (self.root_count as u64) * factor > 16384 {
            return Err(ConfigError::GridSize);
        }
        if self.leaf_size < 1 {
            return Err(ConfigError::LeafSize);
        }
        if self.load_distance.len() != self.lod_count as usize {
            return Err(ConfigError::LoadDistances);
        }
        Ok(())
    }

    /// The side of a tile of the coarsest level, in world units.
    fn top_side(&self) -> (side: u64)
        requires
            self.wf(),
        ensures
            side as int == self.side(self.top()),
    {
        let top: u32 = self.lod_count - 1;
        let mut side: u64 = self.leaf_size as u64;
        let mut l: u32 = 0;
        proof {
            assert(scale(0) == 1);
            assert(self.leaf_size * 1 == self.leaf_size);
        }
        while l < top
            invariant
                self.wf(),
                l <= top == self.top(),
                side as int == self.side(l as int),
            decreases top - l,
        {
            proof {
                lemma_levels(*self, l as int);
                lemma_levels(*self, l + 1);
            }
            side = side * 2;
            l += 1;
        }
        side
    }

    /// Whether the viewer is closer than `d` to the tile `(l, x, y)`, whose
    /// side is `side`.
    fn is_near(&self, view: ViewPosition, l: u32, x: u32, y: u32, side: u64, d: u32) -> (closer:
        bool)
        requires
            self.wf(),
            self.in_grid(l as int, x as int, y as int),
            side as int == self.side(l as int),
        ensures
            closer == self.near(view, l as int, x as int, y as int, d as int),
    {
        proof {
            lemma_levels(*self, l as int);
        }
        let gx = axis_gap(view.x, x, side);
        let gy = axis_gap(view.y, y, side);
        closer_than(gx, gy, d, self.circular)
    }

    /// Appends to `out` the nodes that the viewer requires in the subtree of
    /// the tile `(l, x, y)`, whose side is `side`.
    fn collect(
        &self,
        view: ViewPosition,
        l: u32,
        x: u32,
        y: u32,
        side: u64,
        out: &mut Vec<NodeId>,
    )
        requires
            self.wf(),
            self.in_grid(l as int, x as int, y as int),
            side as int == self.side(l as int),
        ensures
            final(out)@ == old(out)@ + self.subtree(view, l as int, x as int, y as int),
        decreases l, 0int,
    {
        proof {
            lemma_levels(*self, l as int);
        }
        if l >= 1 && self.is_near(view, l, x, y, side, self.load_distance[(l - 1) as usize]) {
            proof {
                lemma_levels(*self, l - 1);
            }
            let range: u32 = self.load_distance[(self.lod_count - 1) as usize];
            let half: u64 = side / 2;
            let ghost start = out@;
            self.collect_child(view, l - 1, 2 * x, 2 * y, half, range, out);
            self.collect_child(view, l - 1, 2 * x + 1, 2 * y, half, range, out);
            self.collect_child(view, l - 1, 2 * x, 2 * y + 1, half, range, out);
            self.collect_child(view, l - 1, 2 * x + 1, 2 * y + 1, half, range, out);
            proof {
                let a = self.branch(view, l - 1, 2 * x, 2 * y);
                let b = self.branch(view, l - 1, 2 * x + 1, 2 * y);
                let c = self.branch(view, l - 1, 2 * x, 2 * y + 1);
                let d = self.branch(view, l - 1, 2 * x + 1, 2 * y + 1);
                assert(out@ =~= start + (a + b + c + d));
            }
        } else {
            out.push(calc_node_id(l, x, y));
            proof {
                assert(out@ =~= old(out)@ + seq![tile_id(l as int, x as int, y as int)]);
            }
        }
    }

    /// Appends to `out` what the viewer requires below the child `(l, x, y)`
    /// of a refined tile: its subtree if the viewer sees the child.
    fn collect_child(
        &self,
        view: ViewPosition,
        l: u32,
        x: u32,
        y: u32,
        side: u64,
        range: u32,
        out: &mut Vec<NodeId>,
    )
        requires
            self.wf(),
            self.in_grid(l as int, x as int, y as int),
            side as int == self.side(l as int),
            range as int == self.range(self.top()),
        ensures
            final(out)@ == old(out)@ + self.branch(view, l as int, x as int, y as int),
        decreases l, 1int,
    {
        if self.is_near(view, l, x, y, side, range) {
            self.collect(view, l, x, y, side, out);
        } else {
            proof {
                assert(out@ =~= old(out)@ + Seq::<NodeId>::empty());
            }
        }
    }

    /// Computes the required set of the viewer at `view`.
    pub fn required_nodes(&self, view: ViewPosition) -> (nodes: Vec<NodeId>)
        requires
            self.wf(),
        ensures
            nodes@ == self.required(view),
            nodes@.no_duplicates(),
            forall|id: NodeId| #[trigger] nodes@.contains(id) <==> self.requires_node(view, id),
    {
        proof {
            lemma_required_exact(*self, view);
        }
        let top: u32 = self.lod_count - 1;
        let side = self.top_side();
        let range: u32 = self.load_distance[top as usize];
        let mut nodes: Vec<NodeId> = Vec::new();
        let mut y: u32 = 0;
        proof {
            lemma_levels(*self, top as int);
        }
        while y < self.root_count
            invariant
                self.wf(),
                top == self.top(),
                side as int == self.side(top as int),
                range as int == self.range(self.top()),
                self.grid(top as int) == self.root_count,
                y <= self.root_count <= 16384,
                1 <= side <= 0x8000_0000_0000,
                nodes@ == self.rows_prefix(view, y as int),
            decreases self.root_count - y,
        {
            let ghost before = nodes@;
            let mut x: u32 = 0;
            proof {
                assert(nodes@ =~= before + self.row_prefix(view, y as int, 0));
            }
            if axis_gap(view.y, y, side) >= range as u64 {
                proof {
                    lemma_row_out_of_sight(*self, view, y as int, self.root_count as int);
                    assert(nodes@ =~= before + self.row_prefix(
                        view,
                        y as int,
                        self.root_count as int,
                    ));
                }
                x = self.root_count;
            }
            while x < self.root_count
                invariant
                    self.wf(),
                    top == self.top(),
                    side as int == self.side(top as int),
                    range as int == self.range(self.top()),
                    self.grid(top as int) == self.root_count,
                    y < self.root_count,
                    x <= self.root_count,
                    nodes@ == before + self.row_prefix(view, y as int, x as int),
                decreases self.root_count - x,
            {
                let ghost row = self.row_prefix(view, y as int, x as int);
                self.collect_child(view, top, x, y, side, range, &mut nodes);
                proof {
                    assert(nodes@ =~= before + (row + self.branch(
                        view,
                        top as int,
                        x as int,
                        y as int,
                    )));
                }
                x += 1;
            }
            y += 1;
        }
        nodes
    }
}

/// A row of root tiles that is out of sight along the rows holds nothing
/// that the viewer requires.
pub proof fn lemma_row_out_of_sight(cfg: ViewConfig, view: ViewPosition, y: int, columns: int)
    requires
        cfg.wf(),
        gap(view.y as int, y * cfg.side(cfg.top()), (y + 1) * cfg.side(cfg.top())) >= cfg.range(
            cfg.top(),
        ),
    ensures
        cfg.row_prefix(view, y, columns) == Seq::<NodeId>::empty(),
    decreases columns,
{
    if columns > 0 {
        lemma_row_out_of_sight(cfg, view, y, columns - 1);
        let top = cfg.top();
        let x = columns - 1;
        let gx = gap(view.x as int, x * cfg.side(top), (x + 1) * cfg.side(top));
        let gy = gap(view.y as int, y * cfg.side(top), (y + 1) * cfg.side(top));
        let d = cfg.range(top);
        assert(gx * gx + gy * gy >= d * d) by (nonlinear_arith)
            requires
                gy >= d,
                d >= 0,
        ;
        assert(!cfg.visible(view, top, x, y));
        assert(cfg.row_prefix(view, y, columns) =~= Seq::<NodeId>::empty());
    }
}

} // verus!
