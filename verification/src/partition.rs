//! The required set of a viewer cuts what the viewer sees into tiles, without
//! gap and without overlap.
//!
//! The proofs relate three descriptions of the required set: the sequence
//! that the selection computes ([`ViewConfig::required`]), the predicate on a
//! single tile ([`ViewConfig::selected`]), and the tiles that lie above a
//! given tile of level 0 ([`ancestor`]).

use crate::node_id::{lemma_decode_encode, lemma_encode_decode, NodeCoordinate, NodeId};
use crate::selection::{
    ancestor, gap, lemma_levels, tile_id, within, ViewConfig, ViewPosition,
};
use vstd::prelude::*;
use vstd::seq_lib::lemma_no_dup_in_concat;

verus! {

/// Whether the tile `(l, x, y)` lies above the tile at `c` or is that tile.
pub open spec fn covers(l: int, x: int, y: int, c: NodeCoordinate) -> bool {
    &&& c.lod <= l
    &&& ancestor(c.x as int, (l - c.lod) as nat) == x
    &&& ancestor(c.y as int, (l - c.lod) as nat) == y
}

impl ViewConfig {
    /// Whether the viewer requires the node `id`.
    pub open spec fn requires_node(&self, view: ViewPosition, id: NodeId) -> bool {
        let c = NodeCoordinate::of(id);
        self.selected(view, c.lod as int, c.x as int, c.y as int)
    }
}

/// Going up one more level halves the index.
pub proof fn lemma_ancestor_step(a: int, k: nat)
    ensures
        ancestor(a, k + 1) == ancestor(a, k) / 2,
    decreases k,
{
    reveal_with_fuel(ancestor, 2);
    if k > 0 {
        lemma_ancestor_step(a / 2, (k - 1) as nat);
    }
}

/// Going up `j` levels and then `k` more is going up `j + k` levels.
pub proof fn lemma_ancestor_add(a: int, j: nat, k: nat)
    ensures
        ancestor(ancestor(a, j), k) == ancestor(a, j + k),
    decreases k,
{
    if k > 0 {
        lemma_ancestor_add(a, j, (k - 1) as nat);
        lemma_ancestor_step(ancestor(a, j), (k - 1) as nat);
        lemma_ancestor_step(a, (j + k - 1) as nat);
    }
}

/// The index of an ancestor is not negative and not larger than the index
/// that it started from.
pub proof fn lemma_ancestor_bounds(a: int, k: nat)
    requires
        0 <= a,
    ensures
        0 <= ancestor(a, k) <= a,
    decreases k,
{
    if k > 0 {
        lemma_ancestor_bounds(a / 2, (k - 1) as nat);
    }
}

/// The ancestors of a tile of the terrain are tiles of the terrain.
pub proof fn lemma_ancestor_in_grid(cfg: ViewConfig, l: int, x: int, y: int, j: nat)
    requires
        cfg.wf(),
        cfg.in_grid(l, x, y),
        l + j <= cfg.top(),
    ensures
        cfg.in_grid(l + j, ancestor(x, j), ancestor(y, j)),
    decreases j,
{
    if j > 0 {
        lemma_ancestor_in_grid(cfg, l, x, y, (j - 1) as nat);
        lemma_ancestor_step(x, (j - 1) as nat);
        lemma_ancestor_step(y, (j - 1) as nat);
        lemma_levels(cfg, l + j);
    }
}

/// The children of a tile of the terrain are tiles of the terrain.
pub proof fn lemma_child_in_grid(cfg: ViewConfig, l: int, x: int, y: int)
    requires
        cfg.wf(),
        l >= 1,
        cfg.in_grid(l, x / 2, y / 2),
        0 <= x,
        0 <= y,
    ensures
        cfg.in_grid(l - 1, x, y),
{
    lemma_levels(cfg, l);
}

/// A tile lies inside its parent: the stretch of world coordinates of the
/// child along one axis is part of that of the parent.
pub proof fn lemma_child_inside(cfg: ViewConfig, l: int, a: int)
    requires
        cfg.wf(),
        1 <= l <= cfg.top(),
        0 <= a,
    ensures
        (a / 2) * cfg.side(l) <= a * cfg.side(l - 1),
        (a + 1) * cfg.side(l - 1) <= (a / 2 + 1) * cfg.side(l),
        a * cfg.side(l - 1) < (a + 1) * cfg.side(l - 1),
{
    lemma_levels(cfg, l);
    lemma_levels(cfg, l - 1);
    let s = cfg.side(l - 1);
    let p = a / 2;
    assert(cfg.side(l) == 2 * s);
    assert(p * (2 * s) <= a * s && (a + 1) * s <= (p + 1) * (2 * s) && a * s < (a + 1) * s)
        by (nonlinear_arith)
        requires
            s >= 1,
            2 * p <= a <= 2 * p + 1,
    ;
}

/// A stretch is no farther from a coordinate than any part of it.
pub proof fn lemma_gap_monotone(v: int, lo: int, hi: int, inner_lo: int, inner_hi: int)
    requires
        lo <= inner_lo < inner_hi <= hi,
    ensures
        0 <= gap(v, lo, hi) <= gap(v, inner_lo, inner_hi),
{
}

/// What is closer than `d` at some axis distances is so at smaller ones.
pub proof fn lemma_within_monotone(gx: int, gy: int, far_gx: int, far_gy: int, d: int, circular: bool)
    requires
        0 <= gx <= far_gx,
        0 <= gy <= far_gy,
        within(far_gx, far_gy, d, circular),
    ensures
        within(gx, gy, d, circular),
{
    assert(gx * gx <= far_gx * far_gx && gy * gy <= far_gy * far_gy) by (nonlinear_arith)
        requires
            0 <= gx <= far_gx,
            0 <= gy <= far_gy,
    ;
}

/// A viewer who is closer than `d` to a tile is closer than `d` to its
/// parent.
pub proof fn lemma_near_parent(cfg: ViewConfig, view: ViewPosition, l: int, x: int, y: int, d: int)
    requires
        cfg.wf(),
        1 <= l <= cfg.top(),
        0 <= x,
        0 <= y,
        cfg.near(view, l - 1, x, y, d),
    ensures
        cfg.near(view, l, x / 2, y / 2, d),
{
    lemma_child_inside(cfg, l, x);
    lemma_child_inside(cfg, l, y);
    let s = cfg.side(l);
    let t = cfg.side(l - 1);
    lemma_gap_monotone(view.x as int, (x / 2) * s, (x / 2 + 1) * s, x * t, (x + 1) * t);
    lemma_gap_monotone(view.y as int, (y / 2) * s, (y / 2 + 1) * s, y * t, (y + 1) * t);
    lemma_within_monotone(
        gap(view.x as int, (x / 2) * s, (x / 2 + 1) * s),
        gap(view.y as int, (y / 2) * s, (y / 2 + 1) * s),
        gap(view.x as int, x * t, (x + 1) * t),
        gap(view.y as int, y * t, (y + 1) * t),
        d,
        cfg.circular,
    );
}

/// A viewer who is closer than `d` to a tile is closer than `d` to each of
/// its ancestors.
pub proof fn lemma_near_ancestor(
    cfg: ViewConfig,
    view: ViewPosition,
    l: int,
    x: int,
    y: int,
    j: nat,
    d: int,
)
    requires
        cfg.wf(),
        0 <= l,
        l + j <= cfg.top(),
        0 <= x,
        0 <= y,
        cfg.near(view, l, x, y, d),
    ensures
        cfg.near(view, l + j, ancestor(x, j), ancestor(y, j), d),
    decreases j,
{
    if j > 0 {
        lemma_near_ancestor(cfg, view, l, x, y, (j - 1) as nat, d);
        lemma_ancestor_step(x, (j - 1) as nat);
        lemma_ancestor_step(y, (j - 1) as nat);
        lemma_ancestor_bounds(x, (j - 1) as nat);
        lemma_ancestor_bounds(y, (j - 1) as nat);
        lemma_near_parent(cfg, view, l + j, ancestor(x, (j - 1) as nat), ancestor(y, (j - 1) as nat), d);
    }
}

/// The selection comes to a tile only through its ancestors: it comes to
/// each of them, and it refines each of them.
pub proof fn lemma_reached_ancestors(
    cfg: ViewConfig,
    view: ViewPosition,
    l: int,
    x: int,
    y: int,
    j: nat,
)
    requires
        cfg.wf(),
        cfg.reached(view, l, x, y),
        l + j <= cfg.top(),
    ensures
        cfg.reached(view, l + j, ancestor(x, j), ancestor(y, j)),
        j >= 1 ==> cfg.refines(view, l + j, ancestor(x, j), ancestor(y, j)),
    decreases j,
{
    if j > 0 {
        lemma_reached_ancestors(cfg, view, l, x, y, (j - 1) as nat);
        lemma_ancestor_step(x, (j - 1) as nat);
        lemma_ancestor_step(y, (j - 1) as nat);
    }
}

/// Of the tiles above a tile of level 0, or that tile itself, the viewer
/// requires at most one.
pub proof fn lemma_one_level_at_most(
    cfg: ViewConfig,
    view: ViewPosition,
    x: int,
    y: int,
    j: int,
    k: int,
)
    requires
        cfg.wf(),
        0 <= j <= cfg.top(),
        0 <= k <= cfg.top(),
        cfg.selected(view, j, ancestor(x, j as nat), ancestor(y, j as nat)),
        cfg.selected(view, k, ancestor(x, k as nat), ancestor(y, k as nat)),
    ensures
        j == k,
{
    if j < k {
        lemma_reached_ancestors(
            cfg,
            view,
            j,
            ancestor(x, j as nat),
            ancestor(y, j as nat),
            (k - j) as nat,
        );
        lemma_ancestor_add(x, j as nat, (k - j) as nat);
        lemma_ancestor_add(y, j as nat, (k - j) as nat);
    } else if k < j {
        lemma_reached_ancestors(
            cfg,
            view,
            k,
            ancestor(x, k as nat),
            ancestor(y, k as nat),
            (j - k) as nat,
        );
        lemma_ancestor_add(x, k as nat, (j - k) as nat);
        lemma_ancestor_add(y, k as nat, (j - k) as nat);
    }
}

/// Below a tile that the selection comes to, every visible tile of level 0
/// has an ancestor, or is itself a tile, that the viewer requires.
pub proof fn lemma_some_level(cfg: ViewConfig, view: ViewPosition, x: int, y: int, l: int) -> (k:
    int)
    requires
        cfg.wf(),
        cfg.in_grid(0, x, y),
        cfg.visible(view, 0, x, y),
        0 <= l <= cfg.top(),
        cfg.reached(view, l, ancestor(x, l as nat), ancestor(y, l as nat)),
    ensures
        0 <= k <= l,
        cfg.selected(view, k, ancestor(x, k as nat), ancestor(y, k as nat)),
    decreases l,
{
    let ax = ancestor(x, l as nat);
    let ay = ancestor(y, l as nat);
    if cfg.refines(view, l, ax, ay) {
        let cx = ancestor(x, (l - 1) as nat);
        let cy = ancestor(y, (l - 1) as nat);
        lemma_ancestor_step(x, (l - 1) as nat);
        lemma_ancestor_step(y, (l - 1) as nat);
        lemma_ancestor_in_grid(cfg, 0, x, y, (l - 1) as nat);
        lemma_near_ancestor(cfg, view, 0, x, y, (l - 1) as nat, cfg.range(cfg.top()));
        assert(cfg.reached(view, l - 1, cx, cy));
        lemma_some_level(cfg, view, x, y, l - 1)
    } else {
        l
    }
}

/// The required set has neither gap nor overlap: every tile of level 0 that
/// the viewer sees is covered by exactly one required tile, itself or one of
/// the tiles above it.
pub proof fn lemma_partition(cfg: ViewConfig, view: ViewPosition, x: int, y: int) -> (k: int)
    requires
        cfg.wf(),
        cfg.in_grid(0, x, y),
        cfg.visible(view, 0, x, y),
    ensures
        0 <= k <= cfg.top(),
        cfg.selected(view, k, ancestor(x, k as nat), ancestor(y, k as nat)),
        forall|j: int|
            0 <= j <= cfg.top() && #[trigger] cfg.selected(
                view,
                j,
                ancestor(x, j as nat),
                ancestor(y, j as nat),
            ) ==> j == k,
{
    let top = cfg.top();
    lemma_ancestor_in_grid(cfg, 0, x, y, top as nat);
    lemma_near_ancestor(cfg, view, 0, x, y, top as nat, cfg.range(top));
    let k = lemma_some_level(cfg, view, x, y, top);
    assert forall|j: int|
        0 <= j <= cfg.top() && #[trigger] cfg.selected(
            view,
            j,
            ancestor(x, j as nat),
            ancestor(y, j as nat),
        ) implies j == k by {
        lemma_one_level_at_most(cfg, view, x, y, j, k);
    }
    k
}

/// Every required tile is a tile of the terrain that the viewer sees, so
/// nothing is required out of sight.
pub proof fn lemma_selected_visible(cfg: ViewConfig, view: ViewPosition, l: int, x: int, y: int)
    requires
        cfg.selected(view, l, x, y),
    ensures
        cfg.in_grid(l, x, y),
        cfg.visible(view, l, x, y),
{
}

/// An element is in a concatenation exactly if it is in one of the parts.
pub proof fn lemma_concat_contains<A>(a: Seq<A>, b: Seq<A>, e: A)
    ensures
        (a + b).contains(e) <==> a.contains(e) || b.contains(e),
{
    if a.contains(e) {
        let i = choose|i: int| 0 <= i < a.len() && a[i] == e;
        assert((a + b)[i] == e);
    }
    if b.contains(e) {
        let i = choose|i: int| 0 <= i < b.len() && b[i] == e;
        assert((a + b)[a.len() + i] == e);
    }
    if (a + b).contains(e) {
        let i = choose|i: int| 0 <= i < (a + b).len() && (a + b)[i] == e;
        if i < a.len() {
            assert(a[i] == e);
        } else {
            assert(b[i - a.len()] == e);
        }
    }
}

/// Whether the selection may come to the tile `(l, x, y)` from above: it is
/// a root tile, or the selection comes to its parent and refines it.
pub open spec fn open_from_above(cfg: ViewConfig, view: ViewPosition, l: int, x: int, y: int) -> bool {
    &&& cfg.in_grid(l, x, y)
    &&& l == cfg.top() || (cfg.reached(view, l + 1, x / 2, y / 2) && cfg.refines(
        view,
        l + 1,
        x / 2,
        y / 2,
    ))
}

/// A tile that covers a required node, other than the node itself, is one
/// that the selection comes to and refines.
proof fn lemma_above_required(cfg: ViewConfig, view: ViewPosition, l: int, x: int, y: int, id: NodeId)
    requires
        cfg.wf(),
        0 <= l <= cfg.top(),
        cfg.requires_node(view, id),
        covers(l, x, y, NodeCoordinate::of(id)),
    ensures
        cfg.reached(view, l, x, y),
        NodeCoordinate::of(id).lod < l ==> cfg.refines(view, l, x, y),
        NodeCoordinate::of(id).lod == l ==> id == tile_id(l, x, y) && !cfg.refines(view, l, x, y),
{
    let c = NodeCoordinate::of(id);
    lemma_reached_ancestors(cfg, view, c.lod as int, c.x as int, c.y as int, (l - c.lod) as nat);
    lemma_encode_decode(id);
}

/// The nodes below a tile that the selection may come to, as the selection
/// lists them, are the required nodes that the tile covers.
pub proof fn lemma_branch_members(
    cfg: ViewConfig,
    view: ViewPosition,
    l: int,
    x: int,
    y: int,
    id: NodeId,
)
    requires
        cfg.wf(),
        open_from_above(cfg, view, l, x, y),
    ensures
        cfg.branch(view, l, x, y).contains(id) <==> cfg.requires_node(view, id) && covers(
            l,
            x,
            y,
            NodeCoordinate::of(id),
        ),
    decreases l, 1int,
{
    if cfg.visible(view, l, x, y) {
        assert(cfg.reached(view, l, x, y));
        lemma_subtree_members(cfg, view, l, x, y, id);
    } else {
        if cfg.requires_node(view, id) && covers(l, x, y, NodeCoordinate::of(id)) {
            lemma_above_required(cfg, view, l, x, y, id);
        }
    }
}

/// The nodes in the subtree of a tile that the selection comes to, as the
/// selection lists them, are the required nodes that the tile covers.
pub proof fn lemma_subtree_members(
    cfg: ViewConfig,
    view: ViewPosition,
    l: int,
    x: int,
    y: int,
    id: NodeId,
)
    requires
        cfg.wf(),
        cfg.reached(view, l, x, y),
    ensures
        cfg.subtree(view, l, x, y).contains(id) <==> cfg.requires_node(view, id) && covers(
            l,
            x,
            y,
            NodeCoordinate::of(id),
        ),
    decreases l, 0int,
{
    let c = NodeCoordinate::of(id);
    let listed = cfg.subtree(view, l, x, y);
    let wanted = cfg.requires_node(view, id) && covers(l, x, y, c);
    lemma_levels(cfg, l);
    if wanted {
        lemma_above_required(cfg, view, l, x, y, id);
    }
    if l <= 0 || !cfg.refines(view, l, x, y) {
        lemma_decode_encode(l, x, y);
        assert(listed[0] == tile_id(l, x, y));
        if id == tile_id(l, x, y) {
            assert(listed.contains(id));
            assert(wanted);
        }
    } else {
        let a = cfg.branch(view, l - 1, 2 * x, 2 * y);
        let b = cfg.branch(view, l - 1, 2 * x + 1, 2 * y);
        let c2 = cfg.branch(view, l - 1, 2 * x, 2 * y + 1);
        let d = cfg.branch(view, l - 1, 2 * x + 1, 2 * y + 1);
        lemma_child_in_grid(cfg, l, 2 * x, 2 * y);
        lemma_child_in_grid(cfg, l, 2 * x + 1, 2 * y);
        lemma_child_in_grid(cfg, l, 2 * x, 2 * y + 1);
        lemma_child_in_grid(cfg, l, 2 * x + 1, 2 * y + 1);
        lemma_branch_members(cfg, view, l - 1, 2 * x, 2 * y, id);
        lemma_branch_members(cfg, view, l - 1, 2 * x + 1, 2 * y, id);
        lemma_branch_members(cfg, view, l - 1, 2 * x, 2 * y + 1, id);
        lemma_branch_members(cfg, view, l - 1, 2 * x + 1, 2 * y + 1, id);
        lemma_concat_contains(a, b, id);
        lemma_concat_contains(a + b, c2, id);
        lemma_concat_contains(a + b + c2, d, id);
        if c.lod < l {
            let j = (l - 1 - c.lod) as nat;
            lemma_ancestor_step(c.x as int, j);
            lemma_ancestor_step(c.y as int, j);
            lemma_ancestor_bounds(c.x as int, j);
            lemma_ancestor_bounds(c.y as int, j);
        }
    }
}

/// The selection lists no node twice below a tile that it may come to.
pub proof fn lemma_branch_distinct(cfg: ViewConfig, view: ViewPosition, l: int, x: int, y: int)
    requires
        cfg.wf(),
        open_from_above(cfg, view, l, x, y),
    ensures
        cfg.branch(view, l, x, y).no_duplicates(),
    decreases l, 1int,
{
    if cfg.visible(view, l, x, y) {
        assert(cfg.reached(view, l, x, y));
        lemma_subtree_distinct(cfg, view, l, x, y);
    }
}

/// What two different tiles of one level cover has no node in common, so
/// the selection lists nothing below both.
proof fn lemma_branches_apart(
    cfg: ViewConfig,
    view: ViewPosition,
    l: int,
    x: int,
    y: int,
    other_x: int,
    other_y: int,
)
    requires
        cfg.wf(),
        open_from_above(cfg, view, l, x, y),
        open_from_above(cfg, view, l, other_x, other_y),
        x != other_x || y != other_y,
    ensures
        forall|i: int, j: int|
            0 <= i < cfg.branch(view, l, x, y).len() && 0 <= j < cfg.branch(
                view,
                l,
                other_x,
                other_y,
            ).len() ==> cfg.branch(view, l, x, y)[i] != cfg.branch(view, l, other_x, other_y)[j],
{
    let a = cfg.branch(view, l, x, y);
    let b = cfg.branch(view, l, other_x, other_y);
    assert forall|i: int, j: int| 0 <= i < a.len() && 0 <= j < b.len() implies a[i] != b[j] by {
        if a[i] == b[j] {
            let id = a[i];
            assert(a.contains(id));
            assert(b.contains(id));
            lemma_branch_members(cfg, view, l, x, y, id);
            lemma_branch_members(cfg, view, l, other_x, other_y, id);
        }
    }
}

/// No node of one sequence is in the other, given that no node is in both.
proof fn lemma_apart_concat(a: Seq<NodeId>, b: Seq<NodeId>, c: Seq<NodeId>)
    requires
        forall|i: int, j: int| 0 <= i < a.len() && 0 <= j < c.len() ==> a[i] != c[j],
        forall|i: int, j: int| 0 <= i < b.len() && 0 <= j < c.len() ==> b[i] != c[j],
    ensures
        forall|i: int, j: int| 0 <= i < (a + b).len() && 0 <= j < c.len() ==> (a + b)[i] != c[j],
{
    assert forall|i: int, j: int| 0 <= i < (a + b).len() && 0 <= j < c.len() implies (a + b)[i]
        != c[j] by {
        if i < a.len() {
            assert((a + b)[i] == a[i]);
        } else {
            assert((a + b)[i] == b[i - a.len()]);
        }
    }
}

/// The selection lists no node twice in the subtree of a tile that it comes
/// to.
pub proof fn lemma_subtree_distinct(cfg: ViewConfig, view: ViewPosition, l: int, x: int, y: int)
    requires
        cfg.wf(),
        cfg.reached(view, l, x, y),
    ensures
        cfg.subtree(view, l, x, y).no_duplicates(),
    decreases l, 0int,
{
    if l <= 0 || !cfg.refines(view, l, x, y) {
    } else {
        let a = cfg.branch(view, l - 1, 2 * x, 2 * y);
        let b = cfg.branch(view, l - 1, 2 * x + 1, 2 * y);
        let c = cfg.branch(view, l - 1, 2 * x, 2 * y + 1);
        let d = cfg.branch(view, l - 1, 2 * x + 1, 2 * y + 1);
        lemma_child_in_grid(cfg, l, 2 * x, 2 * y);
        lemma_child_in_grid(cfg, l, 2 * x + 1, 2 * y);
        lemma_child_in_grid(cfg, l, 2 * x, 2 * y + 1);
        lemma_child_in_grid(cfg, l, 2 * x + 1, 2 * y + 1);
        lemma_branch_distinct(cfg, view, l - 1, 2 * x, 2 * y);
        lemma_branch_distinct(cfg, view, l - 1, 2 * x + 1, 2 * y);
        lemma_branch_distinct(cfg, view, l - 1, 2 * x, 2 * y + 1);
        lemma_branch_distinct(cfg, view, l - 1, 2 * x + 1, 2 * y + 1);
        lemma_branches_apart(cfg, view, l - 1, 2 * x, 2 * y, 2 * x + 1, 2 * y);
        lemma_branches_apart(cfg, view, l - 1, 2 * x, 2 * y, 2 * x, 2 * y + 1);
        lemma_branches_apart(cfg, view, l - 1, 2 * x + 1, 2 * y, 2 * x, 2 * y + 1);
        lemma_branches_apart(cfg, view, l - 1, 2 * x, 2 * y, 2 * x + 1, 2 * y + 1);
        lemma_branches_apart(cfg, view, l - 1, 2 * x + 1, 2 * y, 2 * x + 1, 2 * y + 1);
        lemma_branches_apart(cfg, view, l - 1, 2 * x, 2 * y + 1, 2 * x + 1, 2 * y + 1);
        lemma_no_dup_in_concat(a, b);
        lemma_apart_concat(a, b, c);
        lemma_no_dup_in_concat(a + b, c);
        lemma_apart_concat(a, b, d);
        lemma_apart_concat(a + b, c, d);
        lemma_no_dup_in_concat(a + b + c, d);
    }
}

/// Whether the root tile above the tile at `c` is in row `y` and in one of
/// the first `columns` columns.
pub open spec fn root_in_row(cfg: ViewConfig, c: NodeCoordinate, y: int, columns: int) -> bool {
    &&& c.lod <= cfg.top()
    &&& ancestor(c.y as int, (cfg.top() - c.lod) as nat) == y
    &&& 0 <= ancestor(c.x as int, (cfg.top() - c.lod) as nat) < columns
}

/// Whether the root tile above the tile at `c` is in one of the first
/// `rows` rows.
pub open spec fn root_in_rows(cfg: ViewConfig, c: NodeCoordinate, rows: int) -> bool {
    &&& c.lod <= cfg.top()
    &&& 0 <= ancestor(c.y as int, (cfg.top() - c.lod) as nat) < rows
    &&& 0 <= ancestor(c.x as int, (cfg.top() - c.lod) as nat) < cfg.root_count
}

/// What the selection lists below the first root tiles of a row are the
/// required nodes below these root tiles, each of them once.
pub proof fn lemma_row_members(cfg: ViewConfig, view: ViewPosition, y: int, columns: int)
    requires
        cfg.wf(),
        0 <= y < cfg.root_count,
        0 <= columns <= cfg.root_count,
    ensures
        cfg.row_prefix(view, y, columns).no_duplicates(),
        forall|id: NodeId|
            #[trigger] cfg.row_prefix(view, y, columns).contains(id) <==> cfg.requires_node(view, id)
                && root_in_row(cfg, NodeCoordinate::of(id), y, columns),
    decreases columns,
{
    let top = cfg.top();
    lemma_levels(cfg, top);
    if columns > 0 {
        let before = cfg.row_prefix(view, y, columns - 1);
        let last = cfg.branch(view, top, columns - 1, y);
        lemma_row_members(cfg, view, y, columns - 1);
        lemma_branch_distinct(cfg, view, top, columns - 1, y);
        assert forall|id: NodeId|
            #[trigger] cfg.row_prefix(view, y, columns).contains(id) <==> cfg.requires_node(view, id)
                && root_in_row(cfg, NodeCoordinate::of(id), y, columns) by {
            lemma_concat_contains(before, last, id);
            lemma_branch_members(cfg, view, top, columns - 1, y, id);
        }
        assert forall|i: int, j: int| 0 <= i < before.len() && 0 <= j < last.len() implies before[i]
            != last[j] by {
            if before[i] == last[j] {
                let id = before[i];
                assert(before.contains(id));
                assert(last.contains(id));
                lemma_branch_members(cfg, view, top, columns - 1, y, id);
            }
        }
        lemma_no_dup_in_concat(before, last);
    } else {
        assert forall|id: NodeId| !cfg.row_prefix(view, y, columns).contains(id) by {}
    }
}

/// What the selection lists below the first rows of root tiles are the
/// required nodes below these rows, each of them once.
pub proof fn lemma_rows_members(cfg: ViewConfig, view: ViewPosition, rows: int)
    requires
        cfg.wf(),
        0 <= rows <= cfg.root_count,
    ensures
        cfg.rows_prefix(view, rows).no_duplicates(),
        forall|id: NodeId|
            #[trigger] cfg.rows_prefix(view, rows).contains(id) <==> cfg.requires_node(view, id)
                && root_in_rows(cfg, NodeCoordinate::of(id), rows),
    decreases rows,
{
    if rows > 0 {
        let before = cfg.rows_prefix(view, rows - 1);
        let last = cfg.row_prefix(view, rows - 1, cfg.root_count as int);
        lemma_rows_members(cfg, view, rows - 1);
        lemma_row_members(cfg, view, rows - 1, cfg.root_count as int);
        assert forall|id: NodeId|
            #[trigger] cfg.rows_prefix(view, rows).contains(id) <==> cfg.requires_node(view, id)
                && root_in_rows(cfg, NodeCoordinate::of(id), rows) by {
            lemma_concat_contains(before, last, id);
        }
        assert forall|i: int, j: int| 0 <= i < before.len() && 0 <= j < last.len() implies before[i]
            != last[j] by {
            if before[i] == last[j] {
                let id = before[i];
                assert(before.contains(id));
                assert(last.contains(id));
            }
        }
        lemma_no_dup_in_concat(before, last);
    } else {
        assert forall|id: NodeId| !cfg.rows_prefix(view, rows).contains(id) by {}
    }
}

/// The required set as the selection computes it holds exactly the nodes
/// that the viewer requires, each of them once.
pub proof fn lemma_required_exact(cfg: ViewConfig, view: ViewPosition)
    requires
        cfg.wf(),
    ensures
        cfg.required(view).no_duplicates(),
        forall|id: NodeId| #[trigger] cfg.required(view).contains(id) <==> cfg.requires_node(view, id),
{
    let top = cfg.top();
    lemma_rows_members(cfg, view, cfg.root_count as int);
    lemma_levels(cfg, top);
    assert forall|id: NodeId| cfg.requires_node(view, id) implies root_in_rows(
        cfg,
        NodeCoordinate::of(id),
        cfg.root_count as int,
    ) by {
        let c = NodeCoordinate::of(id);
        lemma_reached_ancestors(
            cfg,
            view,
            c.lod as int,
            c.x as int,
            c.y as int,
            (top - c.lod) as nat,
        );
    }
}

/// The distance between two coordinates.
pub open spec fn apart(a: int, b: int) -> int {
    if a >= b {
        a - b
    } else {
        b - a
    }
}

impl ViewConfig {
    /// The side of the terrain, in world units.
    pub open spec fn extent(&self) -> int {
        self.root_count * self.side(self.top())
    }

    /// Whether the world location `(wx, wy)` lies on the tile `(l, x, y)`.
    pub open spec fn holds(&self, l: int, x: int, y: int, wx: int, wy: int) -> bool {
        &&& x * self.side(l) <= wx < (x + 1) * self.side(l)
        &&& y * self.side(l) <= wy < (y + 1) * self.side(l)
    }

    /// Whether the world location `(wx, wy)` lies on the tile of the node
    /// `id`.
    pub open spec fn node_holds(&self, id: NodeId, wx: int, wy: int) -> bool {
        let c = NodeCoordinate::of(id);
        c.lod <= self.top() && self.holds(c.lod as int, c.x as int, c.y as int, wx, wy)
    }

    /// Whether the viewer sees the world location `(wx, wy)`: it lies on the
    /// terrain and is closer than the load distance of the coarsest level.
    pub open spec fn sees(&self, view: ViewPosition, wx: int, wy: int) -> bool {
        &&& 0 <= wx < self.extent()
        &&& 0 <= wy < self.extent()
        &&& within(
            apart(wx, view.x as int),
            apart(wy, view.y as int),
            self.range(self.top()),
            self.circular,
        )
    }
}

/// The stretch of world coordinates of a tile is part of that of each of
/// its ancestors.
pub proof fn lemma_inside_ancestor(cfg: ViewConfig, a: int, k: nat)
    requires
        cfg.wf(),
        k <= cfg.top(),
        0 <= a,
    ensures
        ancestor(a, k) * cfg.side(k as int) <= a * cfg.side(0),
        (a + 1) * cfg.side(0) <= (ancestor(a, k) + 1) * cfg.side(k as int),
    decreases k,
{
    if k > 0 {
        lemma_inside_ancestor(cfg, a, (k - 1) as nat);
        lemma_ancestor_step(a, (k - 1) as nat);
        lemma_ancestor_bounds(a, (k - 1) as nat);
        lemma_child_inside(cfg, k as int, ancestor(a, (k - 1) as nat));
    }
}

/// Two tiles of one level that share a coordinate are in the same column.
proof fn lemma_same_stretch(side: int, a: int, b: int, w: int)
    requires
        side >= 1,
        a * side <= w < (a + 1) * side,
        b * side <= w < (b + 1) * side,
    ensures
        a == b,
{
    assert(a == b) by (nonlinear_arith)
        requires
            side >= 1,
            a * side <= w < (a + 1) * side,
            b * side <= w < (b + 1) * side,
    ;
}

/// The tile of level 0 that a location of the terrain lies on.
proof fn lemma_leaf_of(cfg: ViewConfig, w: int) -> (a: int)
    requires
        cfg.wf(),
        0 <= w < cfg.extent(),
    ensures
        0 <= a < cfg.grid(0),
        a * cfg.side(0) <= w < (a + 1) * cfg.side(0),
{
    let leaf = cfg.leaf_size as int;
    let top = cfg.top();
    let scale_top = crate::selection::scale(top as nat);
    let root = cfg.root_count as int;
    lemma_levels(cfg, 0);
    lemma_levels(cfg, top);
    assert(crate::selection::scale(0) == 1);
    crate::selection::lemma_scale(top as nat);
    assert(cfg.side(0) == leaf) by (nonlinear_arith)
        requires
            cfg.side(0) == leaf * 1,
    ;
    let a = w / leaf;
    assert(a * leaf <= w < (a + 1) * leaf && 0 <= a) by (nonlinear_arith)
        requires
            a == w / leaf,
            leaf >= 1,
            0 <= w,
    ;
    assert(a < root * scale_top) by (nonlinear_arith)
        requires
            a * leaf <= w,
            w < root * (leaf * scale_top),
            leaf >= 1,
            root >= 1,
            scale_top >= 1,
    ;
    a
}

/// No gap and no overlap: every location of the terrain that the viewer
/// sees lies on the tile of exactly one node of the required set.
pub proof fn lemma_every_location_once(cfg: ViewConfig, view: ViewPosition, wx: int, wy: int) -> (id:
    NodeId)
    requires
        cfg.wf(),
        cfg.sees(view, wx, wy),
    ensures
        cfg.required(view).contains(id),
        cfg.node_holds(id, wx, wy),
        forall|other: NodeId|
            #[trigger] cfg.required(view).contains(other) && cfg.node_holds(other, wx, wy)
                ==> other == id,
{
    let top = cfg.top();
    let x = lemma_leaf_of(cfg, wx);
    let y = lemma_leaf_of(cfg, wy);
    let s0 = cfg.side(0);
    lemma_within_monotone(
        gap(view.x as int, x * s0, (x + 1) * s0),
        gap(view.y as int, y * s0, (y + 1) * s0),
        apart(wx, view.x as int),
        apart(wy, view.y as int),
        cfg.range(top),
        cfg.circular,
    );
    let k = lemma_partition(cfg, view, x, y);
    let kx = ancestor(x, k as nat);
    let ky = ancestor(y, k as nat);
    let id = tile_id(k, kx, ky);
    lemma_required_exact(cfg, view);
    lemma_levels(cfg, k);
    lemma_decode_encode(k, kx, ky);
    lemma_inside_ancestor(cfg, x, k as nat);
    lemma_inside_ancestor(cfg, y, k as nat);
    assert(cfg.requires_node(view, id));
    assert forall|other: NodeId|
        #[trigger] cfg.required(view).contains(other) && cfg.node_holds(
            other,
            wx,
            wy,
        ) implies other == id by {
        let c = NodeCoordinate::of(other);
        let j = c.lod as int;
        assert(cfg.requires_node(view, other));
        lemma_levels(cfg, j);
        lemma_inside_ancestor(cfg, x, j as nat);
        lemma_inside_ancestor(cfg, y, j as nat);
        lemma_same_stretch(cfg.side(j), c.x as int, ancestor(x, j as nat), wx);
        lemma_same_stretch(cfg.side(j), c.y as int, ancestor(y, j as nat), wy);
        lemma_one_level_at_most(cfg, view, x, y, j, k);
        lemma_encode_decode(other);
    }
    id
}

} // verus!
