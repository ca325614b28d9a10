//! The quadtree of one view: the nodes that its viewer requires, what changed
//! since the last update, and the best loaded node at a location.
//!
//! A quadtree keeps the required set of the last update. An update selects
//! the required set for the new position of the viewer and reports the
//! difference as a [`ViewDelta`]: the nodes to request and the nodes to
//! release. Several quadtrees may share one atlas, each with its own
//! configuration and its own required set.

use crate::node_atlas::{AtlasView, NodeAtlas};
use crate::node_id::{calc_node_id, AtlasIndex, NodeId};
use crate::selection::{lemma_levels, tile_id, ConfigError, ViewConfig, ViewPosition};
use vstd::prelude::*;

verus! {

/// The nodes of `a` that are not in `b`, in the order of `a`.
pub open spec fn difference(a: Seq<NodeId>, b: Seq<NodeId>) -> Seq<NodeId> {
    a.filter(|n: NodeId| !b.contains(n))
}

/// A node is in the difference of `a` and `b` exactly if it is in `a` and
/// not in `b`, and the difference repeats nothing that `a` does not repeat.
pub proof fn lemma_difference(a: Seq<NodeId>, b: Seq<NodeId>)
    ensures
        forall|n: NodeId| #[trigger]
            difference(a, b).contains(n) <==> a.contains(n) && !b.contains(n),
        a.no_duplicates() ==> difference(a, b).no_duplicates(),
        difference(a, b).len() <= a.len(),
    decreases a.len(),
{
    let absent = |n: NodeId| !b.contains(n);
    reveal(Seq::filter);
    if a.len() > 0 {
        let front = a.drop_last();
        let last = a.last();
        lemma_difference(front, b);
        assert(a =~= front.push(last));
        assert forall|n: NodeId| #[trigger]
            difference(a, b).contains(n) <==> a.contains(n) && !b.contains(n) by {
            let d = difference(a, b);
            let df = difference(front, b);
            if d.contains(n) {
                let i = choose|i: int| 0 <= i < d.len() && d[i] == n;
                if absent(last) && i == d.len() - 1 {
                    assert(a[a.len() - 1] == n);
                } else {
                    assert(df[i] == n);
                    assert(df.contains(n));
                    let j = choose|j: int| 0 <= j < front.len() && front[j] == n;
                    assert(a[j] == n);
                }
            }
            if a.contains(n) && !b.contains(n) {
                let j = choose|j: int| 0 <= j < a.len() && a[j] == n;
                if j == a.len() - 1 {
                    assert(d[d.len() - 1] == n);
                } else {
                    assert(front[j] == n);
                    assert(front.contains(n));
                    assert(df.contains(n));
                    let i = choose|i: int| 0 <= i < df.len() && df[i] == n;
                    assert(d[i] == n);
                }
            }
        }
        if a.no_duplicates() {
            assert(front.no_duplicates());
            let d = difference(a, b);
            let df = difference(front, b);
            if absent(last) {
                assert forall|i: int, j: int| 0 <= i < d.len() && 0 <= j < d.len() && i != j implies d[i]
                    != d[j] by {
                    if i < df.len() && j < df.len() {
                        assert(df[i] != df[j]);
                    } else {
                        let k = if i < df.len() {
                            i
                        } else {
                            j
                        };
                        assert(df[k] == d[k]);
                        if df[k] == last {
                            assert(df.contains(last));
                            let m = choose|m: int| 0 <= m < front.len() && front[m] == last;
                            assert(a[m] == a[a.len() - 1]);
                        }
                    }
                }
            }
        }
    }
}

/// Whether `node` is one of `nodes`.
pub(crate) fn holds_node(nodes: &Vec<NodeId>, node: NodeId) -> (found: bool)
    ensures
        found == nodes@.contains(node),
{
    let mut i: usize = 0;
    while i < nodes.len()
        invariant
            i <= nodes@.len(),
            forall|j: int| 0 <= j < i ==> nodes@[j] != node,
        decreases nodes@.len() - i,
    {
        if nodes[i] == node {
            return true;
        }
        i += 1;
    }
    false
}

/// The nodes of `a` that are not in `b`, in the order of `a`.
fn subtract(a: &Vec<NodeId>, b: &Vec<NodeId>) -> (rest: Vec<NodeId>)
    ensures
        rest@ == difference(a@, b@),
{
    let mut rest: Vec<NodeId> = Vec::new();
    let mut i: usize = 0;
    proof {
        reveal(Seq::filter);
        assert(a@.subrange(0, 0) =~= Seq::<NodeId>::empty());
    }
    while i < a.len()
        invariant
            i <= a@.len(),
            rest@ == difference(a@.subrange(0, i as int), b@),
        decreases a@.len() - i,
    {
        let node = a[i];
        let ghost done = a@.subrange(0, i as int);
        proof {
            reveal(Seq::filter);
            assert(a@.subrange(0, i + 1) =~= done.push(node));
            assert(done.push(node).drop_last() =~= done);
        }
        if !holds_node(b, node) {
            rest.push(node);
        }
        i += 1;
    }
    proof {
        assert(a@.subrange(0, a@.len() as int) =~= a@);
    }
    rest
}

/// What an update of a view changes in the set of nodes that it requires.
#[derive(Debug)]
pub struct ViewDelta {
    /// The nodes that the view requires now and did not require before.
    pub requested: Vec<NodeId>,
    /// The nodes that the view required before and does not require now.
    pub released: Vec<NodeId>,
}

/// Compares the required set of the previous cycle with that of this cycle.
///
/// The nodes that are only in `current` are to be requested, those that are
/// only in `previous` are to be released, each list in the order of the set
/// that it was taken from. A node that is in both is in neither list.
pub fn diff(previous: &Vec<NodeId>, current: &Vec<NodeId>) -> (delta: ViewDelta)
    ensures
        delta.requested@ == difference(current@, previous@),
        delta.released@ == difference(previous@, current@),
        forall|n: NodeId| #[trigger]
            delta.requested@.contains(n) <==> current@.contains(n) && !previous@.contains(n),
        forall|n: NodeId| #[trigger]
            delta.released@.contains(n) <==> previous@.contains(n) && !current@.contains(n),
{
    proof {
        lemma_difference(current@, previous@);
        lemma_difference(previous@, current@);
    }
    ViewDelta { requested: subtract(current, previous), released: subtract(previous, current) }
}

/// The identifier of the tile of level `l` that the world location
/// `(wx, wy)` lies on.
pub open spec fn node_at(cfg: ViewConfig, l: int, wx: int, wy: int) -> NodeId {
    tile_id(l, wx / cfg.side(l), wy / cfg.side(l))
}

/// Whether the location `(wx, wy)` lies on the terrain.
pub open spec fn on_terrain(cfg: ViewConfig, wx: int, wy: int) -> bool {
    0 <= wx < cfg.extent() && 0 <= wy < cfg.extent()
}

/// Whether level `l` is the finest level at which the node at the location
/// `(wx, wy)` is loaded.
pub open spec fn finest_loaded(cfg: ViewConfig, atlas: AtlasView, wx: int, wy: int, l: int) -> bool {
    &&& 0 <= l <= cfg.top()
    &&& atlas.is_loaded(node_at(cfg, l, wx, wy))
    &&& forall|k: int| 0 <= k < l ==> !atlas.is_loaded(#[trigger] node_at(cfg, k, wx, wy))
}

/// The state of one view.
pub struct Quadtree {
    config: ViewConfig,
    required: Vec<NodeId>,
}

impl Quadtree {
    /// How the view selects its nodes.
    pub closed spec fn config(&self) -> ViewConfig {
        self.config
    }

    /// The required set that the last update selected, empty before the
    /// first update.
    pub closed spec fn required(&self) -> Seq<NodeId> {
        self.required@
    }

    /// The invariant of the view: its configuration is usable.
    pub open spec fn wf(&self) -> bool {
        self.config().wf()
    }

    /// Creates the view for a configuration, with nothing required yet. A
    /// configuration that is not usable is turned away with its first
    /// defect.
    pub fn new(config: ViewConfig) -> (created: Result<Quadtree, ConfigError>)
        ensures
            created is Ok <==> config.wf(),
            created is Ok ==> created->Ok_0.wf() && created->Ok_0.config() == config
                && created->Ok_0.required() == Seq::<NodeId>::empty(),
            created is Err ==> config.defect() == Some(created->Err_0),
    {
        match config.validate() {
            Ok(()) => Ok(Quadtree { config, required: Vec::new() }),
            Err(defect) => Err(defect),
        }
    }

    /// The required set that the last update selected.
    pub fn required_nodes(&self) -> (nodes: &Vec<NodeId>)
        ensures
            nodes@ == self.required(),
    {
        &self.required
    }

    /// Whether the view requires `node` as of the last update.
    pub fn wants(&self, node: NodeId) -> (wanted: bool)
        ensures
            wanted == self.required().contains(node),
    {
        holds_node(&self.required, node)
    }

    /// Moves the viewer to `view`.
    ///
    /// Selects the required set for the new position, keeps it for the next
    /// update, and returns how it differs from the set of the last update.
    pub fn update(&mut self, view: ViewPosition) -> (delta: ViewDelta)
        requires
            old(self).wf(),
        ensures
            final(self).wf(),
            final(self).config() == old(self).config(),
            final(self).required() == old(self).config().required(view),
            final(self).required().no_duplicates(),
            forall|id: NodeId| #[trigger]
                final(self).required().contains(id) <==> old(self).config().requires_node(view, id),
            delta.requested@ == difference(final(self).required(), old(self).required()),
            delta.released@ == difference(old(self).required(), final(self).required()),
    {
        let current = self.config.required_nodes(view);
        let delta = diff(&self.required, &current);
        self.required = current;
        delta
    }

    /// Forgets the required set, as before the first update. The nodes that
    /// were required are returned for release.
    pub fn clear(&mut self) -> (released: Vec<NodeId>)
        ensures
            final(self).config() == old(self).config(),
            final(self).required() == Seq::<NodeId>::empty(),
            released@ == old(self).required(),
    {
        let mut released: Vec<NodeId> = Vec::new();
        std::mem::swap(&mut released, &mut self.required);
        released
    }

    /// Looks up the best loaded node at the world location `(wx, wy)`.
    ///
    /// This is the node of the finest level whose tile holds the location
    /// and which is fully loaded in `atlas`, together with its slot. While
    /// the node that the viewer requires there is still loading, a coarser
    /// node above it is returned, if one is loaded. `None` is returned for a
    /// location off the terrain, and where no level is loaded.
    pub fn best_loaded(&self, atlas: &NodeAtlas, wx: i64, wy: i64) -> (best: Option<
        (NodeId, AtlasIndex),
    >)
        requires
            self.wf(),
        ensures
            best is Some ==> on_terrain(self.config(), wx as int, wy as int) && exists|l: int|
                {
                    &&& #[trigger] finest_loaded(self.config(), atlas@, wx as int, wy as int, l)
                    &&& best->Some_0.0 == node_at(self.config(), l, wx as int, wy as int)
                    &&& Some(best->Some_0.1) == atlas@.slot_of(best->Some_0.0)
                },
            best is None ==> !on_terrain(self.config(), wx as int, wy as int) || forall|l: int|
                0 <= l <= self.config().top() ==> !atlas@.is_loaded(
                    #[trigger] node_at(self.config(), l, wx as int, wy as int),
                ),
    {
        let top: u32 = self.config.lod_count - 1;
        proof {
            lemma_levels(self.config, 0);
            lemma_levels(self.config, top as int);
            assert(crate::selection::scale(0) == 1);
            assert(self.config.leaf_size * 1 == self.config.leaf_size);
            lemma_extent(self.config, top as int);
        }
        if wx < 0 || wy < 0 {
            return None;
        }
        let px: u64 = wx as u64;
        let py: u64 = wy as u64;
        let mut side: u64 = self.config.leaf_size as u64;
        let mut l: u32 = 0;
        while l <= top
            invariant
                self.wf(),
                top == self.config().top(),
                self.config == self.config(),
                l <= top + 1,
                l <= top ==> side as int == self.config().side(l as int),
                px == wx,
                py == wy,
                wx >= 0,
                wy >= 0,
                forall|k: int|
                    0 <= k < l && on_terrain(self.config(), wx as int, wy as int)
                        ==> !atlas@.is_loaded(#[trigger] node_at(self.config(), k, wx as int, wy as int)),
            decreases top + 1 - l,
        {
            proof {
                lemma_levels(self.config, l as int);
                lemma_extent(self.config, l as int);
            }
            let x: u64 = px / side;
            let y: u64 = py / side;
            let grid: u64 = self.grid_exec(l);
            if x >= grid || y >= grid {
                proof {
                    if x >= grid {
                        lemma_off_terrain(self.config, l as int, wx as int);
                    } else {
                        lemma_off_terrain(self.config, l as int, wy as int);
                    }
                }
                return None;
            }
            proof {
                lemma_on_terrain(self.config, l as int, wx as int);
                lemma_on_terrain(self.config, l as int, wy as int);
            }
            let node = calc_node_id(l, x as u32, y as u32);
            match atlas.loaded_slot_of(node) {
                Some(slot) => {
                    proof {
                        assert(finest_loaded(self.config(), atlas@, wx as int, wy as int, l as int));
                    }
                    return Some((node, slot));
                },
                None => {},
            }
            if l < top {
                proof {
                    lemma_levels(self.config, l + 1);
                }
                side = side * 2;
            }
            l += 1;
        }
        None
    }

    /// The number of tiles along each side of the terrain at level `l`.
    fn grid_exec(&self, l: u32) -> (grid: u64)
        requires
            self.wf(),
            l <= self.config().top(),
        ensures
            grid as int == self.config().grid(l as int),
    {
        let top: u32 = self.config.lod_count - 1;
        let mut grid: u64 = self.config.root_count as u64;
        let mut k: u32 = top;
        proof {
            lemma_levels(self.config, top as int);
        }
        while k > l
            invariant
                self.wf(),
                self.config == self.config(),
                l <= k <= top == self.config().top(),
                grid as int == self.config().grid(k as int),
            decreases k - l,
        {
            proof {
                lemma_levels(self.config, k as int);
                lemma_levels(self.config, k - 1);
            }
            grid = grid * 2;
            k -= 1;
        }
        grid
    }
}

/// At every level the tiles along a side of the terrain make up its extent.
pub proof fn lemma_extent(cfg: ViewConfig, l: int)
    requires
        cfg.wf(),
        0 <= l <= cfg.top(),
    ensures
        cfg.grid(l) * cfg.side(l) == cfg.extent(),
    decreases cfg.top() - l,
{
    lemma_levels(cfg, l);
    if l < cfg.top() {
        lemma_extent(cfg, l + 1);
        lemma_levels(cfg, l + 1);
        let g = cfg.grid(l + 1);
        let s = cfg.side(l);
        assert((2 * g) * s == g * (2 * s)) by (nonlinear_arith);
    }
}

/// A coordinate of the terrain lies on a tile of the terrain.
proof fn lemma_on_terrain(cfg: ViewConfig, l: int, w: int)
    requires
        cfg.wf(),
        0 <= l <= cfg.top(),
        0 <= w,
        w / cfg.side(l) < cfg.grid(l),
    ensures
        0 <= w / cfg.side(l) < 16384,
        0 <= w < cfg.extent(),
{
    lemma_levels(cfg, l);
    lemma_extent(cfg, l);
    let s = cfg.side(l);
    let g = cfg.grid(l);
    assert(0 <= w / s && w < g * s) by (nonlinear_arith)
        requires
            s >= 1,
            0 <= w,
            w / s < g,
    ;
}

/// A coordinate beyond the last tile of a level is off the terrain.
proof fn lemma_off_terrain(cfg: ViewConfig, l: int, w: int)
    requires
        cfg.wf(),
        0 <= l <= cfg.top(),
        0 <= w,
        w / cfg.side(l) >= cfg.grid(l),
    ensures
        w >= cfg.extent(),
{
    lemma_levels(cfg, l);
    lemma_extent(cfg, l);
    let s = cfg.side(l);
    let g = cfg.grid(l);
    assert(w >= g * s) by (nonlinear_arith)
        requires
            s >= 1,
            0 <= w,
            w / s >= g,
            g >= 1,
    ;
}

} // verus!
