//! Why every way that the search adds to its tree is one that the
//! oracles report clear.

use vstd::prelude::*;
use crate::astar::{
    clamped, heads, lemma_clamped_is_clear, lemma_nearest_fits, lemma_nearest_within, AStarModel,
    AStarSettings,
};
use crate::collision_free::{anchor_clear, changes_clear, span_clear, step_clear, steps_clear};
use crate::direction::{AStarNodeDirection, Direction};
use crate::grid::{
    grid_move, grid_moves, in_range, leads, lemma_above, lemma_below, lemma_grid_move_aligned,
    lemma_one_step, one_step, valid_stride, with_line,
};
use crate::oracle::{blocked, geometric, lemma_parts, via_blocked};
use crate::post_process::{layer_changes, same_layer};
use crate::search::{
    after_end, after_expand, after_floating, after_grid, after_move, after_radial, after_vias,
    crossing_on, first_clear_step, first_other_step, grid_targets, grown, lemma_clear_steps_tree,
    lemma_grown_twice, lemma_move_tree, lemma_moves_tree, lemma_offers_keep_tree,
    lemma_other_steps_tree, lemma_vias_down_tree, lemma_vias_up_tree, moves_made, own_direction,
    planar_node, point_of, started, step_targets, vertical_node, via_cost_of, vias_down, vias_up,
    waits, with_planar, with_vertical, SearchView,
};
use crate::search_tree::{chain, lemma_way, linked, path_anchors, tree_ok, AstarNode, AstarNodeKey};
use crate::trace_path::TraceAnchor;
use crate::vec2::{is_odd, FixedVec2};

verus! {

/// Whether the way into node `k` is reported clear: the move from the
/// node before it, or a via on every layer that the change of layer
/// passes.
pub open spec fn edge_clear<F: Fn(FixedVec2, FixedVec2, usize) -> bool, G: Fn(FixedVec2, usize) -> bool>(
    f: &F,
    g: &G,
    nodes: Seq<AstarNode>,
    k: int,
) -> bool {
    match nodes[k].prev_node {
        Some(j) => match nodes[k].direction {
            AStarNodeDirection::Planar(_) => !blocked(
                f,
                nodes[j as int].position,
                nodes[k].position,
                nodes[k].layer,
            ),
            AStarNodeDirection::Vertical { from_layer } => span_clear(
                g,
                nodes[k].position,
                from_layer,
                nodes[k].layer,
            ),
            AStarNodeDirection::Unset => true,
        },
        None => true,
    }
}

/// Whether the way into every node is reported clear.
pub open spec fn tree_clear<F: Fn(FixedVec2, FixedVec2, usize) -> bool, G: Fn(FixedVec2, usize) -> bool>(
    f: &F,
    g: &G,
    nodes: Seq<AstarNode>,
) -> bool {
    forall|k: int| 0 <= k < nodes.len() ==> #[trigger] edge_clear(f, g, nodes, k)
}

/// Whether the way into every node is reported clear, should the trace
/// oracle be geometric.
pub open spec fn clear_under<F: Fn(FixedVec2, FixedVec2, usize) -> bool, G: Fn(FixedVec2, usize) -> bool>(
    f: &F,
    g: &G,
    nodes: Seq<AstarNode>,
) -> bool {
    geometric(f) ==> tree_clear(f, g, nodes)
}

/// A further node with a clear way in keeps the tree clear.
proof fn lemma_waits_clear<F: Fn(FixedVec2, FixedVec2, usize) -> bool, G: Fn(FixedVec2, usize) -> bool>(
    f: &F,
    g: &G,
    v: SearchView,
    node: AstarNode,
)
    requires
        tree_ok(v.nodes),
        tree_clear(f, g, v.nodes),
        edge_clear(f, g, v.nodes.push(node), v.nodes.len() as int),
    ensures
        tree_clear(f, g, waits(v, node).nodes),
{
    let w = v.nodes.push(node);
    assert forall|k: int| 0 <= k < w.len() implies #[trigger] edge_clear(f, g, w, k) by {
        if k < v.nodes.len() {
            assert(linked(v.nodes, k));
            assert(edge_clear(f, g, v.nodes, k));
        }
    }
}

/// Offering a move whose way is clear keeps the tree clear.
proof fn lemma_planar_clear<F: Fn(FixedVec2, FixedVec2, usize) -> bool, G: Fn(FixedVec2, usize) -> bool>(
    f: &F,
    g: &G,
    v: SearchView,
    model: &AStarModel,
    parent: usize,
    d: Direction,
    to: FixedVec2,
)
    requires
        tree_ok(v.nodes),
        tree_clear(f, g, v.nodes),
        parent < v.nodes.len(),
        heads(v.nodes[parent as int].position, to, d) && in_range(to@) && !is_odd(to.x@ + to.y@)
            ==> !blocked(f, v.nodes[parent as int].position, to, v.nodes[parent as int].layer),
    ensures
        tree_clear(f, g, with_planar(v, model, parent, d, to).nodes),
{
    let from = v.nodes[parent as int];
    if heads(from.position, to, d) && in_range(to@) && !is_odd(to.x@ + to.y@)
        && !v.visited.contains(AstarNodeKey { position: to, layer: from.layer }) {
        lemma_waits_clear(f, g, v, planar_node(model, from, parent, d, to));
    }
}

/// Offering a change of layer where a via is clear on every layer passed
/// keeps the tree clear.
proof fn lemma_vertical_clear<F: Fn(FixedVec2, FixedVec2, usize) -> bool, G: Fn(FixedVec2, usize) -> bool>(
    f: &F,
    g: &G,
    v: SearchView,
    model: &AStarModel,
    parent: usize,
    to_layer: usize,
    via_cost: u64,
)
    requires
        tree_ok(v.nodes),
        tree_clear(f, g, v.nodes),
        parent < v.nodes.len(),
        span_clear(g, v.nodes[parent as int].position, v.nodes[parent as int].layer, to_layer),
    ensures
        tree_clear(f, g, with_vertical(v, model, parent, to_layer, via_cost).nodes),
{
    let from = v.nodes[parent as int];
    if to_layer != from.layer && !v.visited.contains(
        AstarNodeKey { position: from.position, layer: to_layer },
    ) {
        lemma_waits_clear(f, g, v, vertical_node(model, from, parent, to_layer, via_cost));
    }
}

/// Offering the layers below a node, each only after a via was found
/// clear on it, keeps the tree clear.
proof fn lemma_vias_down_clear<F: Fn(FixedVec2, FixedVec2, usize) -> bool, G: Fn(FixedVec2, usize) -> bool>(
    f: &F,
    g: &G,
    v: SearchView,
    model: &AStarModel,
    cur: usize,
    cost: u64,
    lower: nat,
)
    requires
        tree_ok(v.nodes),
        tree_clear(f, g, v.nodes),
        cur < v.nodes.len(),
        lower <= v.nodes[cur as int].layer,
        span_clear(g, v.nodes[cur as int].position, lower as usize, v.nodes[cur as int].layer),
    ensures
        tree_clear(
            f,
            g,
            vias_down(v, model, g, cur, v.nodes[cur as int].position, cost, lower).nodes,
        ),
    decreases lower,
{
    let node = v.nodes[cur as int];
    if lower > 0 && !via_blocked(g, node.position, (lower - 1) as usize) {
        let w = with_vertical(v, model, cur, (lower - 1) as usize, cost);
        lemma_offers_keep_tree(v, model, cur, Direction::Up, node.position, (lower - 1) as usize, cost);
        lemma_vertical_clear(f, g, v, model, cur, (lower - 1) as usize, cost);
        assert(w.nodes[cur as int] == node);
        lemma_vias_down_clear(f, g, w, model, cur, cost, (lower - 1) as nat);
    }
}

/// Offering the layers above a node, each only after a via was found
/// clear on it, keeps the tree clear.
proof fn lemma_vias_up_clear<F: Fn(FixedVec2, FixedVec2, usize) -> bool, G: Fn(FixedVec2, usize) -> bool>(
    f: &F,
    g: &G,
    v: SearchView,
    model: &AStarModel,
    cur: usize,
    cost: u64,
    upper: nat,
)
    requires
        tree_ok(v.nodes),
        tree_clear(f, g, v.nodes),
        cur < v.nodes.len(),
        v.nodes[cur as int].layer < upper,
        span_clear(
            g,
            v.nodes[cur as int].position,
            v.nodes[cur as int].layer,
            (upper - 1) as usize,
        ),
    ensures
        tree_clear(f, g, vias_up(v, model, g, cur, v.nodes[cur as int].position, cost, upper).nodes),
    decreases model.num_layers - upper,
{
    let node = v.nodes[cur as int];
    if upper < model.num_layers && !via_blocked(g, node.position, upper as usize) {
        let w = with_vertical(v, model, cur, upper as usize, cost);
        lemma_offers_keep_tree(v, model, cur, Direction::Up, node.position, upper as usize, cost);
        lemma_vertical_clear(f, g, v, model, cur, upper as usize, cost);
        assert(w.nodes[cur as int] == node);
        lemma_vias_up_clear(f, g, w, model, cur, cost, upper + 1);
    }
}

/// Under a geometric oracle a move keeps the tree clear.
proof fn lemma_move_clear<F: Fn(FixedVec2, FixedVec2, usize) -> bool, G: Fn(FixedVec2, usize) -> bool>(
    f: &F,
    g: &G,
    v: SearchView,
    model: &AStarModel,
    cur: usize,
    d: Direction,
    dest: FixedVec2,
    goal_aligned: bool,
)
    requires
        geometric(f),
        model.valid(),
        tree_ok(v.nodes),
        tree_clear(f, g, v.nodes),
        cur < v.nodes.len(),
        heads(v.nodes[cur as int].position, dest, d),
        model.end_alignment(v.nodes[cur as int].position, v.nodes[cur as int].layer).is_some()
            ==> goal_aligned,
    ensures
        tree_clear(f, g, after_move(v, model, f, cur, d, dest, goal_aligned).0.nodes),
{
    let node = v.nodes[cur as int];
    let p = node.position;
    assert(linked(v.nodes, cur as int));
    if in_range(dest@) {
        match clamped(f, p, dest, node.layer) {
            None => {},
            Some(stop) => {
                lemma_clamped_is_clear(f, p, dest, node.layer);
                lemma_planar_clear(f, g, v, model, cur, d, stop);
                let v1 = with_planar(v, model, cur, d, stop);
                lemma_offers_keep_tree(v, model, cur, d, stop, 0, 0);
                assert(v1.nodes[cur as int] == node);
                if !goal_aligned {
                    match crossing_on(model, p, stop, node.layer) {
                        Some(q) => {
                            lemma_nearest_fits(p, stop, model.end);
                            if heads(p, q, d) && !is_odd(q.x@ + q.y@) {
                                lemma_nearest_within(p, stop, model.end, d, q);
                                if q != stop {
                                    lemma_parts(f, p, q, stop, node.layer);
                                }
                            }
                            lemma_planar_clear(f, g, v1, model, cur, d, q);
                        },
                        None => {},
                    }
                }
            },
        }
    }
}

/// Under a geometric oracle a list of moves keeps the tree clear.
proof fn lemma_moves_clear<F: Fn(FixedVec2, FixedVec2, usize) -> bool, G: Fn(FixedVec2, usize) -> bool>(
    f: &F,
    g: &G,
    v: SearchView,
    model: &AStarModel,
    cur: usize,
    moves: Seq<(Direction, FixedVec2)>,
    goal_aligned: bool,
    k: nat,
)
    requires
        geometric(f),
        model.valid(),
        tree_ok(v.nodes),
        tree_clear(f, g, v.nodes),
        cur < v.nodes.len(),
        k <= moves.len(),
        forall|t: int|
            0 <= t < moves.len() ==> heads(
                v.nodes[cur as int].position,
                (#[trigger] moves[t]).1,
                moves[t].0,
            ),
        model.end_alignment(v.nodes[cur as int].position, v.nodes[cur as int].layer).is_some()
            ==> goal_aligned,
    ensures
        tree_clear(f, g, moves_made(v, model, f, cur, moves, goal_aligned, k).nodes),
    decreases k,
{
    if k > 0 {
        let w = moves_made(v, model, f, cur, moves, goal_aligned, (k - 1) as nat);
        lemma_moves_clear(f, g, v, model, cur, moves, goal_aligned, (k - 1) as nat);
        lemma_moves_tree(v, model, f, cur, moves, goal_aligned, (k - 1) as nat);
        assert(w.nodes[cur as int] == v.nodes[cur as int]);
        assert(heads(v.nodes[cur as int].position, moves[k - 1].1, moves[k - 1].0));
        lemma_move_clear(f, g, w, model, cur, moves[k - 1].0, moves[k - 1].1, goal_aligned);
    }
}

/// Whether every move of a list runs along an existing grid line to the
/// nearest grid point in its direction.
spec fn along_lines(moves: Seq<(Direction, (int, int))>, p: (int, int), s: int) -> bool {
    forall|t: int|
        0 <= t < moves.len() ==> leads(p, (#[trigger] moves[t]).0, s) && moves[t].1 == grid_move(
            p,
            moves[t].0,
            s,
        )
}

/// Every move to a neighbouring grid point runs along an existing grid
/// line.
proof fn lemma_grid_moves_along(p: (int, int), s: int)
    ensures
        along_lines(grid_moves(p, s), p, s),
{
    let m0 = Seq::<(Direction, (int, int))>::empty();
    let m1 = with_line(m0, p, Direction::Left, Direction::Right, s);
    assert(leads(p, Direction::Left, s) == leads(p, Direction::Right, s));
    assert(along_lines(m1, p, s));
    let m2 = with_line(m1, p, Direction::Up, Direction::Down, s);
    assert(leads(p, Direction::Up, s) == leads(p, Direction::Down, s));
    assert(along_lines(m2, p, s));
    let m3 = with_line(m2, p, Direction::TopLeft, Direction::BottomRight, s);
    assert(leads(p, Direction::TopLeft, s) == leads(p, Direction::BottomRight, s));
    assert(along_lines(m3, p, s));
    let m4 = with_line(m3, p, Direction::TopRight, Direction::BottomLeft, s);
    assert(leads(p, Direction::TopRight, s) == leads(p, Direction::BottomLeft, s));
    assert(along_lines(m4, p, s));
}

/// Every move to a neighbouring grid point leads in its direction.
proof fn lemma_grid_targets_head(p: FixedVec2, s: int)
    requires
        in_range(p@),
        valid_stride(s),
    ensures
        forall|t: int|
            0 <= t < grid_targets(p, s).len() ==> heads(
                p,
                (#[trigger] grid_targets(p, s)[t]).1,
                grid_targets(p, s)[t].0,
            ),
{
    lemma_grid_moves_along(p@, s);
    lemma_below(p.x@, s);
    lemma_below(p.y@, s);
    lemma_above(p.x@, s);
    lemma_above(p.y@, s);
    assert forall|t: int| 0 <= t < grid_targets(p, s).len() implies heads(
        p,
        (#[trigger] grid_targets(p, s)[t]).1,
        grid_targets(p, s)[t].0,
    ) by {
        let e = grid_moves(p@, s)[t];
        lemma_grid_move_aligned(p@, e.0, s);
        assert(point_of(e.1)@ == e.1);
    }
}

/// One step from a point with an even coordinate sum leads in its
/// direction.
proof fn lemma_step_heads(p: FixedVec2, d: Direction, s: int)
    requires
        in_range(p@),
        !is_odd(p.x@ + p.y@),
        valid_stride(s),
    ensures
        heads(p, point_of(one_step(p@, d, s)), d),
{
    lemma_one_step(p@, d, s);
    assert(point_of(one_step(p@, d, s))@ == one_step(p@, d, s));
}

/// Under a geometric oracle the first whole step that is clear keeps the
/// tree clear.
proof fn lemma_clear_steps_clear<F: Fn(FixedVec2, FixedVec2, usize) -> bool, G: Fn(FixedVec2, usize) -> bool>(
    f: &F,
    g: &G,
    v: SearchView,
    model: &AStarModel,
    cur: usize,
    stride: int,
    k: nat,
)
    requires
        tree_ok(v.nodes),
        tree_clear(f, g, v.nodes),
        cur < v.nodes.len(),
    ensures
        tree_clear(f, g, first_clear_step(v, model, f, cur, stride, k).0.nodes),
    decreases 8 - k,
{
    if k < 8 {
        let d = crate::astar::direction_order()[k as int];
        let node = v.nodes[cur as int];
        let dest = point_of(one_step(node.position@, d, stride));
        if !blocked(f, node.position, dest, node.layer) {
            lemma_planar_clear(f, g, v, model, cur, d, dest);
        }
        lemma_clear_steps_clear(f, g, v, model, cur, stride, k + 1);
    }
}

/// Under a geometric oracle the first other step that leads anywhere
/// keeps the tree clear.
proof fn lemma_other_steps_clear<F: Fn(FixedVec2, FixedVec2, usize) -> bool, G: Fn(FixedVec2, usize) -> bool>(
    f: &F,
    g: &G,
    v: SearchView,
    model: &AStarModel,
    cur: usize,
    stride: int,
    own: Direction,
    k: nat,
)
    requires
        geometric(f),
        model.valid(),
        valid_stride(stride),
        tree_ok(v.nodes),
        tree_clear(f, g, v.nodes),
        cur < v.nodes.len(),
    ensures
        tree_clear(f, g, first_other_step(v, model, f, cur, stride, own, k).nodes),
    decreases 8 - k,
{
    if k < 8 {
        let d = crate::astar::direction_order()[k as int];
        let node = v.nodes[cur as int];
        assert(linked(v.nodes, cur as int));
        lemma_step_heads(node.position, d, stride);
        lemma_move_clear(
            f,
            g,
            v,
            model,
            cur,
            d,
            point_of(one_step(node.position@, d, stride)),
            true,
        );
        lemma_other_steps_clear(f, g, v, model, cur, stride, own, k + 1);
    }
}

/// Offering the goal where the way to it is clear keeps the tree sound
/// and clear.
proof fn lemma_end_clear<F: Fn(FixedVec2, FixedVec2, usize) -> bool, G: Fn(FixedVec2, usize) -> bool>(
    f: &F,
    g: &G,
    v: SearchView,
    model: &AStarModel,
    cur: usize,
)
    requires
        tree_ok(v.nodes),
        tree_clear(f, g, v.nodes),
        cur < v.nodes.len(),
    ensures
        grown(v, after_end(v, model, f, cur)),
        tree_clear(f, g, after_end(v, model, f, cur).nodes),
{
    let node = v.nodes[cur as int];
    match model.end_alignment(node.position, node.layer) {
        Some(d) => {
            lemma_offers_keep_tree(v, model, cur, d, model.end, 0, 0);
            if !blocked(f, node.position, model.end, node.layer) {
                lemma_planar_clear(f, g, v, model, cur, d, model.end);
            }
        },
        None => {},
    }
}

/// Offering the layers above and below keeps the tree sound and clear.
proof fn lemma_vias_clear<F: Fn(FixedVec2, FixedVec2, usize) -> bool, G: Fn(FixedVec2, usize) -> bool>(
    f: &F,
    g: &G,
    v: SearchView,
    model: &AStarModel,
    cur: usize,
    settings: &AStarSettings,
)
    requires
        tree_ok(v.nodes),
        tree_clear(f, g, v.nodes),
        cur < v.nodes.len(),
    ensures
        grown(v, after_vias(v, model, g, cur, settings)),
        tree_clear(f, g, after_vias(v, model, g, cur, settings).nodes),
{
    let node = v.nodes[cur as int];
    let p = node.position;
    let cost = via_cost_of(settings.via_cost);
    let down = vias_down(v, model, g, cur, p, cost, node.layer as nat);
    lemma_vias_down_tree(v, model, g, cur, p, cost, node.layer as nat);
    lemma_vias_up_tree(down, model, g, cur, p, cost, (node.layer + 1) as nat);
    lemma_grown_twice(v, down, vias_up(down, model, g, cur, p, cost, (node.layer + 1) as nat));
    if node.layer < model.num_layers && !via_blocked(g, p, node.layer) {
        lemma_vias_down_clear(f, g, v, model, cur, cost, node.layer as nat);
        assert(down.nodes[cur as int] == node);
        lemma_vias_up_clear(f, g, down, model, cur, cost, (node.layer + 1) as nat);
    }
}

/// Under a geometric oracle the moves to the neighbouring grid points
/// keep the tree sound and clear.
proof fn lemma_grid_clear<F: Fn(FixedVec2, FixedVec2, usize) -> bool, G: Fn(FixedVec2, usize) -> bool>(
    f: &F,
    g: &G,
    v: SearchView,
    model: &AStarModel,
    cur: usize,
    settings: &AStarSettings,
    goal_aligned: bool,
)
    requires
        geometric(f),
        model.valid(),
        valid_stride(settings.astar_stride@),
        tree_ok(v.nodes),
        tree_clear(f, g, v.nodes),
        cur < v.nodes.len(),
        model.end_alignment(v.nodes[cur as int].position, v.nodes[cur as int].layer).is_some()
            ==> goal_aligned,
    ensures
        grown(v, after_grid(v, model, f, cur, settings, goal_aligned)),
        tree_clear(f, g, after_grid(v, model, f, cur, settings, goal_aligned).nodes),
{
    let p = v.nodes[cur as int].position;
    let stride = settings.astar_stride@;
    assert(linked(v.nodes, cur as int));
    let grid = grid_targets(p, stride);
    lemma_grid_targets_head(p, stride);
    lemma_moves_tree(v, model, f, cur, grid, goal_aligned, grid.len());
    lemma_moves_clear(f, g, v, model, cur, grid, goal_aligned, grid.len());
}

/// Under a geometric oracle the steps along the obstacles keep the tree
/// sound and clear.
proof fn lemma_radial_clear<F: Fn(FixedVec2, FixedVec2, usize) -> bool, G: Fn(FixedVec2, usize) -> bool>(
    f: &F,
    g: &G,
    v: SearchView,
    model: &AStarModel,
    cur: usize,
    settings: &AStarSettings,
    goal_aligned: bool,
)
    requires
        geometric(f),
        model.valid(),
        valid_stride(settings.astar_stride@),
        tree_ok(v.nodes),
        tree_clear(f, g, v.nodes),
        cur < v.nodes.len(),
        model.end_alignment(v.nodes[cur as int].position, v.nodes[cur as int].layer).is_some()
            ==> goal_aligned,
    ensures
        grown(v, after_radial(v, model, f, cur, settings, goal_aligned)),
        tree_clear(f, g, after_radial(v, model, f, cur, settings, goal_aligned).nodes),
{
    let node = v.nodes[cur as int];
    let p = node.position;
    let stride = settings.astar_stride@;
    assert(linked(v.nodes, cur as int));
    let radial = step_targets(p, crate::astar::radial_list(f, p, node.layer, 8), stride);
    assert forall|t: int| 0 <= t < radial.len() implies heads(
        p,
        (#[trigger] radial[t]).1,
        radial[t].0,
    ) by {
        lemma_step_heads(p, radial[t].0, stride);
    }
    lemma_moves_tree(v, model, f, cur, radial, goal_aligned, radial.len());
    lemma_moves_clear(f, g, v, model, cur, radial, goal_aligned, radial.len());
}

/// Under a geometric oracle the step of a node on no grid line and at no
/// obstacle keeps the tree sound and clear.
proof fn lemma_floating_clear<F: Fn(FixedVec2, FixedVec2, usize) -> bool, G: Fn(FixedVec2, usize) -> bool>(
    f: &F,
    g: &G,
    v: SearchView,
    model: &AStarModel,
    cur: usize,
    settings: &AStarSettings,
)
    requires
        geometric(f),
        model.valid(),
        valid_stride(settings.astar_stride@),
        tree_ok(v.nodes),
        tree_clear(f, g, v.nodes),
        cur < v.nodes.len(),
    ensures
        grown(v, after_floating(v, model, f, cur, settings)),
        tree_clear(f, g, after_floating(v, model, f, cur, settings).nodes),
{
    let node = v.nodes[cur as int];
    let p = node.position;
    let stride = settings.astar_stride@;
    assert(linked(v.nodes, cur as int));
    lemma_clear_steps_tree(v, model, f, cur, stride, 0);
    lemma_clear_steps_clear(f, g, v, model, cur, stride, 0);
    let own = own_direction(node);
    lemma_step_heads(p, own, stride);
    lemma_move_tree(v, model, f, cur, own, point_of(one_step(p@, own, stride)), true);
    lemma_move_clear(f, g, v, model, cur, own, point_of(one_step(p@, own, stride)), true);
    lemma_other_steps_tree(v, model, f, cur, stride, own, 0);
    lemma_other_steps_clear(f, g, v, model, cur, stride, own, 0);
}

/// Under a geometric oracle, expanding a node of a sound tree in which
/// every way is clear leaves every way clear: the search adds no move
/// that the trace oracle reports blocked and no change of layer where
/// the via oracle reports a via blocked on a layer that it passes.
pub proof fn lemma_expand_keeps_clear<
    F: Fn(FixedVec2, FixedVec2, usize) -> bool,
    G: Fn(FixedVec2, usize) -> bool,
>(f: &F, g: &G, v: SearchView, model: &AStarModel, cur: usize, settings: &AStarSettings)
    requires
        geometric(f),
        model.valid(),
        valid_stride(settings.astar_stride@),
        tree_ok(v.nodes),
        tree_clear(f, g, v.nodes),
        cur < v.nodes.len(),
    ensures
        tree_clear(f, g, after_expand(v, model, f, g, cur, settings).nodes),
{
    let node = v.nodes[cur as int];
    let goal_aligned = model.end_alignment(node.position, node.layer).is_some();
    let v1 = after_end(v, model, f, cur);
    lemma_end_clear(f, g, v, model, cur);
    assert(v1.nodes[cur as int] == node);
    let v2 = after_vias(v1, model, g, cur, settings);
    lemma_vias_clear(f, g, v1, model, cur, settings);
    assert(v2.nodes[cur as int] == node);
    let v3 = after_grid(v2, model, f, cur, settings, goal_aligned);
    lemma_grid_clear(f, g, v2, model, cur, settings, goal_aligned);
    assert(v3.nodes[cur as int] == node);
    let v4 = after_radial(v3, model, f, cur, settings, goal_aligned);
    lemma_radial_clear(f, g, v3, model, cur, settings, goal_aligned);
    assert(v4.nodes[cur as int] == node);
    lemma_floating_clear(f, g, v4, model, cur, settings);
}

/// Every way in a tree of start nodes is clear: there is none.
pub proof fn lemma_started_clear<F: Fn(FixedVec2, FixedVec2, usize) -> bool, G: Fn(FixedVec2, usize) -> bool>(
    f: &F,
    g: &G,
    model: &AStarModel,
    k: nat,
)
    ensures
        tree_clear(f, g, started(model, k).nodes),
        forall|t: int|
            0 <= t < started(model, k).nodes.len() ==> (#[trigger] started(
                model,
                k,
            ).nodes[t]).prev_node.is_none(),
    decreases k,
{
    if k > 0 {
        lemma_started_clear(f, g, model, (k - 1) as nat);
        let v = started(model, (k - 1) as nat);
        let w = started(model, k);
        assert forall|t: int| 0 <= t < w.nodes.len() implies (#[trigger] w.nodes[t]).prev_node.is_none() by {
            if t < v.nodes.len() {
                assert(w.nodes[t] == v.nodes[t]);
            }
        }
        assert forall|t: int| 0 <= t < w.nodes.len() implies #[trigger] edge_clear(
            f,
            g,
            w.nodes,
            t,
        ) by {
            assert(w.nodes[t].prev_node.is_none());
        }
    }
}

/// In a sound tree in which every way is clear, the path to a node has
/// clear steps and clear changes of layer.
pub proof fn lemma_way_is_clear<F: Fn(FixedVec2, FixedVec2, usize) -> bool, G: Fn(FixedVec2, usize) -> bool>(
    f: &F,
    g: &G,
    nodes: Seq<AstarNode>,
    k: int,
)
    requires
        tree_ok(nodes),
        tree_clear(f, g, nodes),
        0 <= k < nodes.len(),
    ensures
        steps_clear(f, path_anchors(nodes, chain(nodes, k))),
        changes_clear(g, path_anchors(nodes, chain(nodes, k))),
    decreases k,
{
    let c = chain(nodes, k);
    let a = path_anchors(nodes, c);
    let x = nodes[k];
    assert(linked(nodes, k));
    assert(edge_clear(f, g, nodes, k));
    lemma_way(nodes, k);
    match nodes[k].prev_node {
        Some(j) => {
            let j = j as int;
            lemma_way(nodes, j);
            lemma_way_is_clear(f, g, nodes, j);
            let cj = chain(nodes, j);
            let b = path_anchors(nodes, cj);
            assert(c == cj.push(k));
            assert(c.drop_last() =~= cj);
            if b.last().position == x.position {
                let joined = TraceAnchor {
                    position: x.position,
                    start_layer: b.last().start_layer,
                    end_layer: x.layer,
                };
                assert(a == b.drop_last().push(joined));
                assert forall|i: int| 0 <= i < a.len() - 1 implies #[trigger] step_clear(f, a, i) by {
                    assert(step_clear(f, b, i));
                }
                assert(a.drop_last() =~= b.drop_last());
                assert(b.last().position == nodes[j].position);
                assert(b.last().end_layer == nodes[j].layer);
                assert(x.direction == AStarNodeDirection::Vertical { from_layer: nodes[j].layer });
                assert(span_clear(g, x.position, nodes[j].layer, x.layer));
                if !same_layer(b.last()) {
                    assert(layer_changes(b).last() == b.last());
                    assert(anchor_clear(g, layer_changes(b)[layer_changes(b).len() - 1]));
                }
                assert(span_clear(g, x.position, b.last().start_layer, b.last().end_layer));
                assert(anchor_clear(g, joined)) by {
                    assert forall|layer: usize|
                        (joined.start_layer <= layer <= joined.end_layer || joined.end_layer
                            <= layer <= joined.start_layer) implies !#[trigger] via_blocked(
                        g,
                        joined.position,
                        layer,
                    ) by {
                        if !(b.last().start_layer <= layer <= b.last().end_layer
                            || b.last().end_layer <= layer <= b.last().start_layer) {
                            assert(nodes[j].layer <= layer <= x.layer || x.layer <= layer
                                <= nodes[j].layer);
                        }
                    }
                }
                lemma_joined_clear(g, b, joined);
            } else {
                let fresh = TraceAnchor {
                    position: x.position,
                    start_layer: x.layer,
                    end_layer: x.layer,
                };
                assert(a == b.push(fresh));
                assert forall|i: int| 0 <= i < a.len() - 1 implies #[trigger] step_clear(f, a, i) by {
                    if i < b.len() - 1 {
                        assert(step_clear(f, b, i));
                    }
                }
                assert(a.drop_last() =~= b);
                assert(layer_changes(a) == layer_changes(b));
            }
        },
        None => {
            assert(c == seq![k]);
            assert(c.drop_last() =~= Seq::<int>::empty());
            assert(path_anchors(nodes, Seq::<int>::empty()) =~= Seq::<TraceAnchor>::empty());
            let lone = TraceAnchor { position: x.position, start_layer: x.layer, end_layer: x.layer };
            assert(a == Seq::<TraceAnchor>::empty().push(lone));
            assert(a.drop_last() =~= Seq::<TraceAnchor>::empty());
            assert(layer_changes(a.drop_last()) =~= Seq::<TraceAnchor>::empty());
            assert(layer_changes(a) =~= Seq::<TraceAnchor>::empty());
        },
    }
}

/// Replacing the last anchor of a path by one at the same position keeps
/// the changes of layer clear, when a via is clear at the new anchor on
/// every layer between its two layers.
proof fn lemma_joined_clear<G: Fn(FixedVec2, usize) -> bool>(
    g: &G,
    b: Seq<TraceAnchor>,
    joined: TraceAnchor,
)
    requires
        b.len() >= 1,
        changes_clear(g, b),
        same_layer(joined) || anchor_clear(g, joined),
    ensures
        changes_clear(g, b.drop_last().push(joined)),
{
    let a = b.drop_last().push(joined);
    let bd = b.drop_last();
    assert(a.drop_last() =~= bd);
    assert(a.last() == joined);
    assert forall|t: int| 0 <= t < layer_changes(a).len() implies anchor_clear(
        g,
        #[trigger] layer_changes(a)[t],
    ) by {
        if t < layer_changes(bd).len() {
            assert(layer_changes(b)[t] == layer_changes(bd)[t]);
            assert(anchor_clear(g, layer_changes(b)[t]));
        }
    }
}

} // verus!
