//! What holds of every search on two kinds of board: one whose wire layer is taken
//! everywhere, and one on which nothing is taken at all.

use crate::graph::{unit_step, Graph};
use crate::via::{LayerVia, Via};
use vstd::prelude::*;

verus! {

/// Whether every cell of the wire layer is taken and no jumper is recorded.
pub open spec fn wire_layer_closed(g: Graph) -> bool {
    forall|v: Via| g.board().contains(v) ==> #[trigger] g.router.blocked(v) && !g.router.jump(v).is_valid
}

/// Whether nothing is taken: no cell of the wire layer, no via by a net or a pin, and no
/// jumper is recorded.
pub open spec fn board_open(g: Graph) -> bool {
    forall|v: Via|
        g.board().contains(v) ==> !(#[trigger] g.router.blocked(v)) && !g.router.jump(v).is_valid
            && !g.router.is_pin(v) && !g.nets.has(g.board(), v)
}

/// Where the wire layer is taken everywhere, a walk that begins on the strip layer stays
/// on the strip layer and in its column.
pub proof fn lemma_closed_wire_layer_walks(g: Graph, p: Seq<LayerVia>, i: int)
    requires
        g.wf(),
        wire_layer_closed(g),
        g.is_path(p),
        !p[0].is_wire_layer,
        0 <= i < p.len(),
    ensures
        !p[i].is_wire_layer,
        p[i].via.x == p[0].via.x,
    decreases i,
{
    if i > 0 {
        lemma_closed_wire_layer_walks(g, p, i - 1);
        let u = p[i - 1];
        let v = p[i];
        assert(g.edge_at(p, i - 1).is_some());
        assert(g.step_cost(u, v).is_some());
        if g.plain_edge(u, v) {
            if v.is_wire_layer {
                assert(g.router.blocked(v.via));
            }
        } else {
            assert(g.jump_edge(u, v));
            assert(g.router.blocked(u.via));
        }
    }
}

/// Where the wire layer is taken everywhere, no walk leads from the strip of one column
/// to the strip of another: a search between such vias finds nothing.
pub proof fn lemma_closed_wire_layer_separates(g: Graph, end: LayerVia)
    requires
        g.wf(),
        wire_layer_closed(g),
        g.start.x != end.via.x,
    ensures
        !g.reachable(g.start_node(), end),
{
    assert forall|p: Seq<LayerVia>| !g.connects(p, g.start_node(), end) by {
        if g.connects(p, g.start_node(), end) {
            lemma_closed_wire_layer_walks(g, p, p.len() - 1);
        }
    }
}

/// The distance between `a` and `b`.
pub open spec fn gap(a: usize, b: usize) -> int {
    if a <= b {
        b - a
    } else {
        a - b
    }
}

/// The number of steps that lead from `n` to the strip-layer node at `end` on an open
/// board: along the column where both lie in one, else up to the wire layer, along the
/// row, down to the strip and along the column.
pub open spec fn steps_to(n: LayerVia, end: Via) -> int {
    gap(n.via.x, end.x) + gap(n.via.y, end.y) + (if n.via.x != end.x {
        if n.is_wire_layer {
            1int
        } else {
            2int
        }
    } else {
        if n.is_wire_layer {
            1int
        } else {
            0int
        }
    })
}

/// Whether every step costs `c`.
pub open spec fn uniform(g: Graph, c: usize) -> bool {
    g.settings.wire_cost == c && g.settings.strip_cost == c && g.settings.via_cost == c
}

/// No step brings a walk more than one step nearer to its end.
proof fn lemma_one_step_nearer(g: Graph, u: LayerVia, v: LayerVia, end: Via)
    requires
        g.wf(),
        board_open(g),
        g.step_cost(u, v).is_some(),
    ensures
        steps_to(u, end) <= steps_to(v, end) + 1,
{
    assert(g.board().contains(u.via));
    if !g.plain_edge(u, v) {
        assert(g.jump_edge(u, v));
        assert(!g.router.blocked(u.via));
    }
}

/// On an open board with uniform costs a walk costs at least as many steps as its first
/// node is nearer to `end` than its last.
proof fn lemma_walk_costs_at_least(g: Graph, c: usize, p: Seq<LayerVia>, end: Via)
    requires
        g.wf(),
        board_open(g),
        uniform(g, c),
        g.is_path(p),
    ensures
        g.path_cost(p) >= c * (steps_to(p[0], end) - steps_to(p[p.len() - 1], end)),
    decreases p.len(),
{
    if p.len() >= 2 {
        let rest = p.drop_first();
        g.lemma_path_tail(p);
        lemma_walk_costs_at_least(g, c, rest, end);
        lemma_one_step_nearer(g, p[0], p[1], end);
        let a = steps_to(p[0], end);
        let b = steps_to(p[1], end);
        let z = steps_to(p[p.len() - 1], end);
        assert(rest[rest.len() - 1] == p[p.len() - 1]);
        assert(g.step_cost(p[0], p[1]).unwrap() == c) by {
            if !g.plain_edge(p[0], p[1]) {
                assert(g.jump_edge(p[0], p[1]));
                assert(!g.router.blocked(p[0].via));
            }
        }
        assert(c + c * (b - z) >= c * (a - z)) by (nonlinear_arith)
            requires
                a <= b + 1,
                c >= 0,
        ;
    } else {
        assert(c * (steps_to(p[0], end) - steps_to(p[0], end)) == 0) by (nonlinear_arith);
    }
}

/// On an open board with uniform costs a walk leads from every node to `end` in as many
/// steps as [`steps_to`] says.
proof fn lemma_walk_exists(g: Graph, c: usize, u: LayerVia, end: Via)
    requires
        g.wf(),
        board_open(g),
        uniform(g, c),
        g.board().contains(u.via),
        g.board().contains(end),
    ensures
        exists|p: Seq<LayerVia>| #[trigger]
            g.connects(p, u, LayerVia { via: end, is_wire_layer: false }) && g.path_cost(p) == c * steps_to(
                u,
                end,
            ),
    decreases steps_to(u, end),
{
    let target = LayerVia { via: end, is_wire_layer: false };
    if u == target {
        let p = seq![u];
        assert(g.connects(p, u, target));
        assert(c * steps_to(u, end) == 0) by (nonlinear_arith)
            requires
                steps_to(u, end) == 0,
        ;
    } else {
        let v = if u.is_wire_layer {
            if u.via.x < end.x {
                LayerVia { via: Via { x: (u.via.x + 1) as usize, y: u.via.y }, is_wire_layer: true }
            } else if u.via.x > end.x {
                LayerVia { via: Via { x: (u.via.x - 1) as usize, y: u.via.y }, is_wire_layer: true }
            } else {
                LayerVia { via: u.via, is_wire_layer: false }
            }
        } else {
            if u.via.x != end.x {
                LayerVia { via: u.via, is_wire_layer: true }
            } else if u.via.y < end.y {
                LayerVia { via: Via { x: u.via.x, y: (u.via.y + 1) as usize }, is_wire_layer: false }
            } else {
                LayerVia { via: Via { x: u.via.x, y: (u.via.y - 1) as usize }, is_wire_layer: false }
            }
        };
        assert(g.board().contains(v.via));
        assert(unit_step(u, v));
        assert(!g.router.blocked(v.via));
        assert(!g.router.is_pin(v.via));
        assert(!g.nets.has(g.board(), v.via));
        assert(g.available(v));
        assert(g.plain_edge(u, v));
        assert(g.step_cost(u, v) == Some(c));
        assert(steps_to(v, end) == steps_to(u, end) - 1);
        lemma_walk_exists(g, c, v, end);
        let rest = choose|p: Seq<LayerVia>| #[trigger]
            g.connects(p, v, target) && g.path_cost(p) == c * steps_to(v, end);
        let p = seq![u] + rest;
        g.lemma_path_cons(u, rest);
        assert(g.connects(p, u, target));
        assert(c + c * steps_to(v, end) == c * steps_to(u, end)) by (nonlinear_arith)
            requires
                steps_to(v, end) == steps_to(u, end) - 1,
        ;
    }
}

/// On a board on which nothing is taken, with every step at the cost `c`, every
/// cheapest walk from the start to `end` costs `c` for each hole of distance along the
/// row and along the column, and, where the two lie in different columns, `c` for each
/// of the two changes of layer.
pub proof fn lemma_open_board_cost(g: Graph, c: usize, end: Via, p: Seq<LayerVia>)
    requires
        g.wf(),
        board_open(g),
        uniform(g, c),
        g.board().contains(end),
        g.cheapest(p, LayerVia { via: end, is_wire_layer: false }),
    ensures
        g.path_cost(p) == c * (gap(g.start.x, end.x) + gap(g.start.y, end.y)) + (if g.start.x != end.x {
            2 * c
        } else {
            0
        }),
{
    let target = LayerVia { via: end, is_wire_layer: false };
    lemma_walk_exists(g, c, g.start_node(), end);
    let q = choose|q: Seq<LayerVia>| #[trigger]
        g.connects(q, g.start_node(), target) && g.path_cost(q) == c * steps_to(g.start_node(), end);
    assert(g.path_cost(p) <= g.path_cost(q));
    lemma_walk_costs_at_least(g, c, p, end);
    let a = steps_to(g.start_node(), end);
    assert(steps_to(target, end) == 0);
    assert(c * (a - 0) == c * a) by (nonlinear_arith);
    let d = gap(g.start.x, end.x) + gap(g.start.y, end.y);
    if g.start.x != end.x {
        assert(c * (d + 2) == c * d + 2 * c) by (nonlinear_arith);
    } else {
        assert(c * (d + 0) == c * d) by (nonlinear_arith);
    }
}

/// Every node of a walk lies on the board: no search leaves it, wherever on the board,
/// at its border or inside, the walk begins.
pub proof fn lemma_walk_stays_on_board(g: Graph, p: Seq<LayerVia>, i: int)
    requires
        g.is_path(p),
        0 <= i < p.len(),
    ensures
        g.board().contains(p[i].via),
    decreases i,
{
    if i > 0 {
        lemma_walk_stays_on_board(g, p, i - 1);
        assert(g.edge_at(p, i - 1).is_some());
    }
}

/// The strip-layer node of column `x` in row `y`.
pub open spec fn strip_at(x: usize, y: int) -> LayerVia {
    LayerVia { via: Via { x, y: y as usize }, is_wire_layer: false }
}

/// Whether the route may enter every strip-layer node of column `x` from row `y1` to row
/// `y2`, both included, whichever of them is smaller.
pub open spec fn column_free(g: Graph, x: usize, y1: usize, y2: usize) -> bool {
    forall|y: int| (y1 <= y <= y2 || y2 <= y <= y1) ==> g.available(#[trigger] strip_at(x, y))
}

/// Where no jumper is recorded, the steps that a walk stands for are its nodes.
pub proof fn lemma_plain_walk_expands_to_itself(g: Graph, p: Seq<LayerVia>)
    requires
        g.wf(),
        wire_layer_closed(g),
        g.is_path(p),
    ensures
        g.expand(p) == p,
    decreases p.len(),
{
    if p.len() >= 2 {
        let rest = p.drop_first();
        g.lemma_path_tail(p);
        lemma_plain_walk_expands_to_itself(g, rest);
        assert(g.step_cost(p[0], p[1]).is_some());
        if g.jump_edge(p[0], p[1]) {
            assert(g.router.blocked(p[0].via));
        }
        assert(g.expand_step(p[0], p[1]) =~= seq![p[1]]);
        assert(g.expand(rest) == seq![rest[0]] + g.steps_after(rest));
        assert(g.steps_after(p) =~= seq![p[1]] + g.steps_after(rest));
        assert(g.expand(p) =~= p);
    } else {
        assert(g.steps_after(p) =~= Seq::empty());
        assert(g.expand(p) =~= p);
    }
}

/// Where the wire layer is taken everywhere, a walk that begins on the strip layer costs
/// at least one strip step for each row that its end is nearer to `row` than its
/// beginning.
proof fn lemma_column_walk_costs_at_least(g: Graph, p: Seq<LayerVia>, row: usize)
    requires
        g.wf(),
        wire_layer_closed(g),
        g.is_path(p),
        !p[0].is_wire_layer,
    ensures
        g.path_cost(p) >= g.settings.strip_cost * (gap(p[0].via.y, row) - gap(p[p.len() - 1].via.y, row)),
    decreases p.len(),
{
    let c = g.settings.strip_cost;
    if p.len() >= 2 {
        let rest = p.drop_first();
        g.lemma_path_tail(p);
        lemma_closed_wire_layer_walks(g, p, 1);
        lemma_column_walk_costs_at_least(g, rest, row);
        assert(rest[rest.len() - 1] == p[p.len() - 1]);
        assert(g.step_cost(p[0], p[1]).is_some());
        if !g.plain_edge(p[0], p[1]) {
            assert(g.jump_edge(p[0], p[1]));
            assert(g.router.blocked(p[0].via));
        }
        assert(g.step_cost(p[0], p[1]).unwrap() == c);
        let a = gap(p[0].via.y, row);
        let b = gap(p[1].via.y, row);
        let z = gap(p[p.len() - 1].via.y, row);
        assert(a <= b + 1);
        assert(c + c * (b - z) >= c * (a - z)) by (nonlinear_arith)
            requires
                a <= b + 1,
                c >= 0,
        ;
    } else {
        assert(c * (gap(p[0].via.y, row) - gap(p[0].via.y, row)) == 0) by (nonlinear_arith);
    }
}

/// Along a column that is free between a strip-layer node and the end, a walk leads from
/// the node to the end at one strip step for each row between them.
proof fn lemma_column_walk_exists(g: Graph, u: LayerVia, end: Via)
    requires
        g.wf(),
        !u.is_wire_layer,
        g.board().contains(u.via),
        g.board().contains(end),
        u.via.x == end.x,
        column_free(g, end.x, u.via.y, end.y),
    ensures
        exists|p: Seq<LayerVia>| #[trigger]
            g.connects(p, u, LayerVia { via: end, is_wire_layer: false }) && g.path_cost(p)
                == g.settings.strip_cost * gap(u.via.y, end.y),
    decreases gap(u.via.y, end.y),
{
    let c = g.settings.strip_cost;
    let target = LayerVia { via: end, is_wire_layer: false };
    if u == target {
        let p = seq![u];
        assert(g.connects(p, u, target));
        assert(c * gap(u.via.y, end.y) == 0) by (nonlinear_arith)
            requires
                gap(u.via.y, end.y) == 0,
        ;
    } else {
        let y2: int = if u.via.y < end.y {
            u.via.y + 1
        } else {
            u.via.y - 1
        };
        let v = strip_at(end.x, y2);
        assert(g.available(v));
        assert(unit_step(u, v));
        assert(g.plain_edge(u, v));
        assert(g.step_cost(u, v) == Some(c));
        assert(column_free(g, end.x, v.via.y, end.y)) by {
            assert forall|y: int| (v.via.y <= y <= end.y || end.y <= y <= v.via.y) implies g.available(
                #[trigger] strip_at(end.x, y),
            ) by {}
        }
        lemma_column_walk_exists(g, v, end);
        let rest = choose|p: Seq<LayerVia>| #[trigger]
            g.connects(p, v, target) && g.path_cost(p) == c * gap(v.via.y, end.y);
        let p = seq![u] + rest;
        g.lemma_path_cons(u, rest);
        assert(g.connects(p, u, target));
        assert(c + c * gap(v.via.y, end.y) == c * gap(u.via.y, end.y)) by (nonlinear_arith)
            requires
                gap(v.via.y, end.y) == gap(u.via.y, end.y) - 1,
        ;
    }
}

/// Where the wire layer is taken everywhere and the column of the start is free down or
/// up to an end in the same column, a walk leads to the end, and every cheapest walk runs
/// along the strip only: each of its nodes lies on the strip layer in that column, its
/// steps are its nodes, and it costs one strip step for each row between start and end.
pub proof fn lemma_closed_wire_layer_cost(g: Graph, end: Via, p: Seq<LayerVia>)
    requires
        g.wf(),
        wire_layer_closed(g),
        g.board().contains(end),
        g.start.x == end.x,
        column_free(g, end.x, g.start.y, end.y),
        g.cheapest(p, LayerVia { via: end, is_wire_layer: false }),
    ensures
        g.reachable(g.start_node(), LayerVia { via: end, is_wire_layer: false }),
        g.path_cost(p) == g.settings.strip_cost * gap(g.start.y, end.y),
        g.expand(p) == p,
        forall|i: int| 0 <= i < p.len() ==> !(#[trigger] p[i]).is_wire_layer && p[i].via.x == g.start.x,
{
    let target = LayerVia { via: end, is_wire_layer: false };
    lemma_column_walk_exists(g, g.start_node(), end);
    let q = choose|q: Seq<LayerVia>| #[trigger]
        g.connects(q, g.start_node(), target) && g.path_cost(q) == g.settings.strip_cost * gap(
            g.start.y,
            end.y,
        );
    assert(g.path_cost(p) <= g.path_cost(q));
    lemma_column_walk_costs_at_least(g, p, end.y);
    assert(gap(end.y, end.y) == 0);
    lemma_plain_walk_expands_to_itself(g, p);
    assert forall|i: int| 0 <= i < p.len() implies !(#[trigger] p[i]).is_wire_layer && p[i].via.x
        == g.start.x by {
        lemma_closed_wire_layer_walks(g, p, i);
    }
}

/// A committed jumper is passed in one step at the cost of one wire step, however many
/// holes it spans: a walk leads from the strip under one end to the strip under the other
/// at that cost, its steps go up to the wire layer, along the jumper and down again, and
/// no cheapest walk from the one to the other costs more.
pub proof fn lemma_jumper_costs_one_wire_step(g: Graph, v: LayerVia, p: Seq<LayerVia>)
    requires
        g.wf(),
        g.jump_edge(g.start_node(), v),
        g.cheapest(p, v),
    ensures
        g.step_cost(g.start_node(), v) == Some(g.settings.wire_cost),
        g.connects(seq![g.start_node(), v], g.start_node(), v),
        g.path_cost(seq![g.start_node(), v]) == g.settings.wire_cost,
        g.expand(seq![g.start_node(), v]) == seq![g.start_node()] + crate::graph::wire_run(
            v.via.y,
            g.start.x,
            v.via.x,
        ).push(v),
        g.path_cost(p) <= g.settings.wire_cost,
{
    let u = g.start_node();
    let q = seq![u, v];
    assert(!g.plain_edge(u, v));
    assert(g.edge_at(q, 0) == g.step_cost(u, v));
    assert(g.is_path(q)) by {
        assert forall|i: int| 0 <= i < q.len() - 1 implies (#[trigger] g.edge_at(q, i)).is_some() by {
            assert(i == 0);
        }
    }
    assert(q.drop_first() =~= seq![v]);
    assert(g.path_cost(q.drop_first()) == 0);
    assert(g.steps_after(q.drop_first()) =~= Seq::empty());
    assert(g.steps_after(q) =~= g.expand_step(u, v));
    assert(g.expand(q) =~= seq![u] + crate::graph::wire_run(v.via.y, g.start.x, v.via.x).push(v));
    assert(g.connects(q, u, v));
}

} // verus!
