//! The state of one routing attempt and the steps that fill a layout.

use crate::board::Board;
use crate::circuit::{box_holds, box_touched, is_bounding_box, Circuit};
use crate::layout::Layout;
use crate::nets::{connect_count, connect_idx, connect_route_idx, Nets};
use crate::ucs::{is_lowest_cost_route, lemma_route_cost_bounded, search_graph, UniformCostSearch};
use crate::graph::valid_steps;
use crate::sections::{between, condense, covered, lemma_sections_straight, sections_of, straight};
use crate::settings::Settings;
use crate::thread_stop::ThreadStop;
use crate::util::copy_of;
use crate::via::{LayerStartEndVia, LayerVia, StartEndVia, ValidVia, Via, WireLayerVia};
use vstd::prelude::*;

verus! {

/// What a routing attempt knows beside the nets: which cells of the wire layer are taken,
/// which committed jumper ends where, and where the pins in use are.
#[derive(Debug)]
pub struct Router {
    pub board: Board,
    /// For each cell, whether a pin in use sits there.
    pub all_pin_set: Vec<bool>,
    /// For each cell, the state of the wire layer.
    pub via_trace_vec: Vec<WireLayerVia>,
}

/// The pins of component `c` of `circuit`, in package order.
pub open spec fn pins_of(circuit: &Circuit, c: int) -> Seq<Via> {
    Seq::new(circuit.pin_offsets(c).len(), |p: int| circuit.pin_via(c, p))
}

/// Whether `v` lies in the smallest box around the pins of component `c`.
pub open spec fn in_footprint(circuit: &Circuit, c: int, v: Via) -> bool {
    exists|b: StartEndVia| is_bounding_box(b, pins_of(circuit, c)) && box_holds(b, v)
}

/// Whether `v` lies in the footprint of one of the first `n` components.
pub open spec fn in_footprints(circuit: &Circuit, n: int, v: Via) -> bool {
    exists|c: int| 0 <= c < n && in_footprint(circuit, c, v)
}

/// Whether pin `p` of component `c` is in use and sits at `v`.
pub open spec fn is_active_pin(circuit: &Circuit, c: int, p: int, v: Via) -> bool {
    &&& 0 <= p < circuit.pin_offsets(c).len()
    &&& circuit.pin_via(c, p) == v
    &&& !circuit.component_name_to_component_map@[c].1.spec_is_dont_care(p as usize)
}

/// Whether a pin in use of one of the first `n` components sits at `v`.
pub open spec fn has_active_pin(circuit: &Circuit, n: int, v: Via) -> bool {
    exists|c: int, p: int| 0 <= c < n && is_active_pin(circuit, c, p, v)
}

/// The per-cell class numbers and the class count after the two ends of each of the first
/// `upto` connections have been connected, in order.
pub open spec fn join_idx(board: Board, s: Seq<usize>, n: int, circuit: &Circuit, upto: int) -> (
    Seq<usize>,
    int,
)
    decreases upto,
{
    if upto <= 0 {
        (s, n)
    } else {
        let (s1, n1) = join_idx(board, s, n, circuit, upto - 1);
        let c = circuit.connection_vias(upto - 1);
        let ia = board.spec_idx(c.start);
        let ib = board.spec_idx(c.end);
        (connect_idx(s1, n1, ia, ib), connect_count(s1, n1, ia, ib))
    }
}

/// Two boxes around the same pins, each the smallest, are the same box.
pub proof fn lemma_bounding_box_unique(a: StartEndVia, b: StartEndVia, pins: Seq<Via>)
    requires
        is_bounding_box(a, pins),
        is_bounding_box(b, pins),
    ensures
        a == b,
{
    if pins.len() > 0 {
        let (a1, a2, a3, a4) = choose|a1: int, a2: int, a3: int, a4: int| box_touched(a, pins, a1, a2, a3, a4);
        let (b1, b2, b3, b4) = choose|b1: int, b2: int, b3: int, b4: int| box_touched(b, pins, b1, b2, b3, b4);
        assert(box_holds(b, pins[a1]) && box_holds(b, pins[a2]) && box_holds(b, pins[a3]) && box_holds(
            b,
            pins[a4],
        ));
        assert(box_holds(a, pins[b1]) && box_holds(a, pins[b2]) && box_holds(a, pins[b3]) && box_holds(
            a,
            pins[b4],
        ));
    }
}

/// The record of a cell after the far end of the jumper that ends there has been set.
pub open spec fn with_far_end(cell: WireLayerVia, far: Via) -> WireLayerVia {
    WireLayerVia { is_wire_side_blocked: cell.is_wire_side_blocked, wire_to_via: ValidVia { via: far, is_valid: true } }
}

/// The wire-layer records after the two ends of each wire section among the first `upto`
/// of `sections` have been recorded, in order, as each other's far end.
pub open spec fn with_jumps(
    trace: Seq<WireLayerVia>,
    board: Board,
    sections: Seq<LayerStartEndVia>,
    upto: int,
) -> Seq<WireLayerVia>
    decreases upto,
{
    if upto <= 0 {
        trace
    } else {
        let t = with_jumps(trace, board, sections, upto - 1);
        let s = sections[upto - 1];
        if s.start.is_wire_layer {
            let a = board.spec_idx(s.start.via);
            let b = board.spec_idx(s.end.via);
            let t1 = t.update(a, with_far_end(t[a], s.end.via));
            t1.update(b, with_far_end(t1[b], s.start.via))
        } else {
            t
        }
    }
}

/// Whether recording the ends of `b` leaves what was recorded for the wire section `a` as
/// it is: `b` is no wire section, or shares no end with `a`, or has the same two ends.
pub open spec fn agrees(a: LayerStartEndVia, b: LayerStartEndVia) -> bool {
    ||| !b.start.is_wire_layer
    ||| (b.start.via != a.start.via && b.start.via != a.end.via && b.end.via != a.start.via && b.end.via
        != a.end.via)
    ||| (b.start.via == a.start.via && b.end.via == a.end.via)
    ||| (b.start.via == a.end.via && b.end.via == a.start.via)
}

/// Whether the two ends of `a` are recorded as each other's far end.
pub open spec fn points(router: &Router, a: LayerStartEndVia) -> bool {
    &&& router.jump(a.start.via) == (ValidVia { via: a.end.via, is_valid: true })
    &&& router.jump(a.end.via) == (ValidVia { via: a.start.via, is_valid: true })
}

/// Whether each of the first `upto` of `sections` agrees with `a`: see [`agrees`].
pub open spec fn agrees_all(a: LayerStartEndVia, sections: Seq<LayerStartEndVia>, upto: int) -> bool {
    forall|m: int| 0 <= m < upto ==> agrees(a, #[trigger] sections[m])
}

/// Whether section `k` of route `r` of `routes` is a wire section with which every
/// section committed after it agrees, in its own route and in the routes that follow.
pub open spec fn stays(routes: Seq<Vec<LayerStartEndVia>>, r: int, k: int) -> bool {
    &&& lasting(routes[r]@, k, routes[r]@.len() as int)
    &&& forall|r2: int| r < r2 < routes.len() ==> agrees_all(routes[r]@[k], (#[trigger] routes[r2])@, routes[r2]@.len() as int)
}

/// Whether, from route `from` on, the two ends of every wire section that stays are
/// recorded as each other's far end.
pub open spec fn jumps_ok(router: &Router, routes: Seq<Vec<LayerStartEndVia>>, from: int) -> bool {
    forall|r: int, k: int|
        from <= r < routes.len() && #[trigger] stays(routes, r, k) ==> points(router, routes[r]@[k])
}

/// Whether section `k` of `sections` is a wire section with whose ends every later one
/// among the first `upto` agrees.
pub open spec fn lasting(sections: Seq<LayerStartEndVia>, k: int, upto: int) -> bool {
    &&& 0 <= k < upto
    &&& sections[k].start.is_wire_layer
    &&& forall|m: int| k < m < upto ==> agrees(sections[k], #[trigger] sections[m])
}

/// Whether `v` is taken by a net or by a pin.
pub open spec fn occupied(router: &Router, nets: &Nets, v: Via) -> bool {
    nets.has(router.board, v) || router.is_pin(v)
}

/// Whether the cell at row `y` of the column of `v` is occupied.
pub open spec fn occupied_at(router: &Router, nets: &Nets, v: Via, y: int) -> bool {
    occupied(router, nets, Via { x: v.x, y: y as usize })
}

/// Whether some cell above `v` in its column is occupied.
pub open spec fn used_above(router: &Router, nets: &Nets, v: Via) -> bool {
    exists|y: int| 0 <= y < v.y && #[trigger] occupied_at(router, nets, v, y)
}

/// Whether `v` starts a new occupant of its strip: it is occupied and not connected to
/// the cell just above it.
pub open spec fn is_foreign(router: &Router, nets: &Nets, v: Via) -> bool {
    &&& v.y >= 1
    &&& occupied(router, nets, v)
    &&& !nets.connected(router.board, v, Via { x: v.x, y: (v.y - 1) as usize })
}

/// Whether the strip has to be cut just above `v`: `v` starts a new occupant and the
/// strip is in use further up.
pub open spec fn is_cut(router: &Router, nets: &Nets, v: Via) -> bool {
    is_foreign(router, nets, v) && used_above(router, nets, v)
}

/// Whether `a` comes before `b` when the board is read column by column, each from the
/// top.
pub open spec fn column_order(a: Via, b: Via) -> bool {
    a.x < b.x || (a.x == b.x && a.y < b.y)
}

/// Whether `cuts` lists the cuts of the board, each once, column by column and each
/// column from the top.
pub open spec fn lists_cuts(router: &Router, nets: &Nets, cuts: Seq<Via>) -> bool {
    &&& forall|i: int|
        0 <= i < cuts.len() ==> router.board.contains(#[trigger] cuts[i]) && is_cut(router, nets, cuts[i])
    &&& forall|v: Via| router.board.contains(v) && #[trigger] is_cut(router, nets, v) ==> cuts.contains(v)
    &&& forall|i: int, j: int| 0 <= i < j < cuts.len() ==> column_order(#[trigger] cuts[i], #[trigger] cuts[j])
}

/// Whether the strip of column `x` has to be cut just above row `y`.
pub open spec fn cut_at(router: &Router, nets: &Nets, x: usize, y: int) -> bool {
    is_cut(router, nets, Via { x, y: y as usize })
}

/// Between two occupied cells of one column that follow each other, with nothing occupied
/// between them, and that are not connected, the strip is cut exactly once: just above
/// the lower one.
pub proof fn lemma_one_cut_between(router: &Router, nets: &Nets, x: usize, y1: usize, y2: usize)
    requires
        router.wf(router.board),
        nets.wf(router.board),
        y1 < y2,
        router.board.contains(Via { x, y: y2 }),
        occupied(router, nets, Via { x, y: y1 }),
        occupied(router, nets, Via { x, y: y2 }),
        forall|y: int| y1 < y < y2 ==> !#[trigger] occupied_at(router, nets, Via { x, y: y2 }, y),
        !nets.connected(router.board, Via { x, y: y1 }, Via { x, y: y2 }),
    ensures
        cut_at(router, nets, x, y2 as int),
        forall|y: int| y1 < y < y2 ==> !#[trigger] cut_at(router, nets, x, y),
{
    let v2 = Via { x, y: y2 };
    let above = Via { x, y: (y2 - 1) as usize };
    if y2 - 1 != y1 {
        assert(!occupied_at(router, nets, v2, y2 - 1));
    }
    assert(occupied_at(router, nets, v2, y1 as int));
    assert forall|y: int| y1 < y < y2 implies !#[trigger] cut_at(router, nets, x, y) by {
        assert(!occupied_at(router, nets, v2, y));
    }
}

/// Whether the costs of `settings` can be used on `board`: every step costs something,
/// and the cost of the longest walk without repetition fits the machine word.
pub open spec fn settings_fit(board: Board, settings: Settings) -> bool {
    &&& settings.wire_cost >= 1
    &&& settings.strip_cost >= 1
    &&& settings.via_cost >= 1
    &&& route_cost_limit(board, settings) < usize::MAX
}

/// The cost that no single route on `board` can exceed.
pub open spec fn route_cost_limit(board: Board, settings: Settings) -> int {
    2 * board.spec_size() * settings.spec_max_step_cost()
}

/// Whether every cell of the wire layer from `s.start` to `s.end` is taken.
pub open spec fn cells_blocked(router: &Router, s: LayerStartEndVia) -> bool {
    forall|x: usize| #[trigger]
        between(s.start.via.x, s.end.via.x, x) ==> router.blocked(Via { x, y: s.start.via.y })
}

/// Whether each of `sections` lies on the board, on one layer and along the direction in
/// which that layer conducts, and every cell of each wire section is taken.
pub open spec fn committed_ok(router: &Router, sections: Seq<LayerStartEndVia>) -> bool {
    forall|k: int|
        0 <= k < sections.len() ==> {
            let s = #[trigger] sections[k];
            &&& router.board.contains(s.start.via)
            &&& router.board.contains(s.end.via)
            &&& straight(s)
            &&& s.start.is_wire_layer ==> cells_blocked(router, s)
        }
}

/// Whether every route of `routes` from place `from` on is as [`committed_ok`] says.
pub open spec fn routes_ok(router: &Router, routes: Seq<Vec<LayerStartEndVia>>, from: int) -> bool {
    forall|r: int| from <= r < routes.len() ==> committed_ok(router, (#[trigger] routes[r])@)
}

/// Whether `later` has taken every cell that `earlier` has taken, and has the same pins.
pub open spec fn grown(earlier: &Router, later: &Router) -> bool {
    &&& later.board == earlier.board
    &&& later.all_pin_set == earlier.all_pin_set
    &&& forall|v: Via| earlier.board.contains(v) && earlier.blocked(v) ==> #[trigger] later.blocked(v)
}

/// Whether `later` connects what `earlier` connects.
pub open spec fn nets_grown(board: Board, earlier: &Nets, later: &Nets) -> bool {
    &&& forall|u: Via, v: Via|
        board.contains(u) && board.contains(v) && earlier.connected(board, u, v) ==> #[trigger] later.connected(
            board,
            u,
            v,
        )
    &&& forall|v: Via| board.contains(v) && earlier.has(board, v) ==> #[trigger] later.has(board, v)
}

/// Whether the two ends of each of the first `n` connections of `circuit` are connected.
pub open spec fn all_joined(board: Board, nets: &Nets, circuit: &Circuit, n: int) -> bool {
    forall|i: int|
        0 <= i < n ==> nets.connected(
            board,
            (#[trigger] circuit.connection_vias(i)).start,
            circuit.connection_vias(i).end,
        )
}

proof fn lemma_routes_ok_grown(earlier: &Router, later: &Router, routes: Seq<Vec<LayerStartEndVia>>, from: int)
    requires
        routes_ok(earlier, routes, from),
        grown(earlier, later),
    ensures
        routes_ok(later, routes, from),
{
    assert forall|r: int| from <= r < routes.len() implies committed_ok(later, (#[trigger] routes[r])@) by {
        let sections = routes[r]@;
        assert(committed_ok(earlier, sections));
        assert forall|k: int| 0 <= k < sections.len() implies ({
            let s = #[trigger] sections[k];
            &&& later.board.contains(s.start.via)
            &&& later.board.contains(s.end.via)
            &&& straight(s)
            &&& s.start.is_wire_layer ==> cells_blocked(later, s)
        }) by {
            let s = sections[k];
            if s.start.is_wire_layer {
                assert(cells_blocked(earlier, s));
                assert forall|x: usize| #[trigger] between(s.start.via.x, s.end.via.x, x) implies later.blocked(
                    Via { x, y: s.start.via.y },
                ) by {
                    assert(earlier.blocked(Via { x, y: s.start.via.y }));
                }
            }
        }
    }
}

/// The sections of a route whose wire-layer steps are all taken are as [`committed_ok`]
/// says.
proof fn lemma_route_committed(router: &Router, route: Seq<LayerVia>)
    requires
        valid_steps(route),
        route.len() >= 1,
        forall|i: int| 0 <= i < route.len() ==> router.board.contains(#[trigger] route[i].via),
        forall|i: int|
            0 <= i < route.len() && (#[trigger] route[i]).is_wire_layer ==> router.blocked(route[i].via),
    ensures
        committed_ok(router, sections_of(route)),
{
    let sections = sections_of(route);
    lemma_sections_straight(route);
    crate::sections::lemma_section_ends(route);
    assert forall|k: int| 0 <= k < sections.len() implies ({
        let s = #[trigger] sections[k];
        &&& router.board.contains(s.start.via)
        &&& router.board.contains(s.end.via)
        &&& straight(s)
        &&& s.start.is_wire_layer ==> cells_blocked(router, s)
    }) by {
        let s = sections[k];
        assert(route.contains(s.start) && route.contains(s.end));
        if s.start.is_wire_layer {
            assert(covered(route, s));
            assert forall|x: usize| #[trigger] between(s.start.via.x, s.end.via.x, x) implies router.blocked(
                Via { x, y: s.start.via.y },
            ) by {
                let node = LayerVia { via: Via { x, y: s.start.via.y }, is_wire_layer: true };
                assert(route.contains(node));
                let i = choose|i: int| 0 <= i < route.len() && route[i] == node;
                assert(route[i].is_wire_layer);
            }
        }
    }
}

/// The record of the jumpers stays right when one more route is committed, and when
/// none is.
proof fn lemma_jumps_ok_step(r1: Router, l1: Layout, r2: Router, l2: Layout, lf: Layout, from: int, found: bool)
    requires
        0 <= from <= l1.route_vec@.len(),
        jumps_ok(&r1, l1.route_vec@, from),
        routes_ok(&r1, l1.route_vec@, from),
        r2.board == r1.board,
        l2.route_vec == lf.route_vec,
        found ==> exists|c: StartEndVia, n1: Nets, n2: Nets| #[trigger]
            committed(r1, n1, l1, r2, n2, Layout { n_completed_routes: l1.n_completed_routes, ..lf }, c),
        !found ==> r2 == r1 && lf.route_vec == l1.route_vec,
    ensures
        jumps_ok(&r2, l2.route_vec@, from),
{
    let old_routes = l1.route_vec@;
    let new_routes = l2.route_vec@;
    if found {
        let (c, n1, n2) = choose|c: StartEndVia, n1: Nets, n2: Nets| #[trigger]
            committed(r1, n1, l1, r2, n2, Layout { n_completed_routes: l1.n_completed_routes, ..lf }, c);
        let route = lf.diag_route_step_vec@;
        let added = sections_of(route);
        let last = old_routes.len() as int;
        assert(new_routes[last]@ == added);
        assert forall|r: int, k: int| from <= r < new_routes.len() && #[trigger] stays(new_routes, r, k) implies points(
            &r2,
            new_routes[r]@[k],
        ) by {
            let a = new_routes[r]@[k];
            if r < last {
                assert(new_routes[r] == old_routes[r]);
                assert(stays(old_routes, r, k)) by {
                    assert forall|r3: int| r < r3 < old_routes.len() implies agrees_all(
                        old_routes[r]@[k],
                        (#[trigger] old_routes[r3])@,
                        old_routes[r3]@.len() as int,
                    ) by {
                        assert(new_routes[r3] == old_routes[r3]);
                        assert(agrees_all(new_routes[r]@[k], new_routes[r3]@, new_routes[r3]@.len() as int));
                    }
                }
                assert(points(&r1, a));
                assert(agrees_all(a, new_routes[last]@, new_routes[last]@.len() as int));
                assert(committed_ok(&r1, old_routes[r]@));
                assert(r1.board.contains(a.start.via) && r1.board.contains(a.end.via));
            } else {
                assert(lasting(added, k, added.len() as int));
            }
        }
    } else {
        assert forall|r: int, k: int| from <= r < new_routes.len() && #[trigger] stays(new_routes, r, k) implies points(
            &r2,
            new_routes[r]@[k],
        ) by {
            assert(stays(old_routes, r, k));
        }
    }
}

proof fn lemma_committed_grown(earlier: &Router, later: &Router, sections: Seq<LayerStartEndVia>)
    requires
        committed_ok(earlier, sections),
        grown(earlier, later),
    ensures
        committed_ok(later, sections),
{
    assert forall|k: int| 0 <= k < sections.len() implies ({
        let s = #[trigger] sections[k];
        &&& later.board.contains(s.start.via)
        &&& later.board.contains(s.end.via)
        &&& straight(s)
        &&& s.start.is_wire_layer ==> cells_blocked(later, s)
    }) by {
        let s = sections[k];
        if s.start.is_wire_layer {
            assert(cells_blocked(earlier, s));
            assert forall|x: usize| #[trigger] between(s.start.via.x, s.end.via.x, x) implies later.blocked(
                Via { x, y: s.start.via.y },
            ) by {
                assert(earlier.blocked(Via { x, y: s.start.via.y }));
            }
        }
    }
}

/// What a committed route leaves behind. `r0`, `n0` and `l0` are the router, the nets and
/// the layout before the search for the connection `c`, `r1`, `n1` and `l1` those after
/// it. The steps of the route are those that the layout keeps for diagnosis: they are
/// the steps of a cheapest walk, whose cost was added to the cost of the layout; their
/// sections were added to the routes of the layout; the cells of the wire layer under
/// them are taken; and the start is connected to each of its strip-layer steps.
pub open spec fn committed(
    r0: Router,
    n0: Nets,
    l0: Layout,
    r1: Router,
    n1: Nets,
    l1: Layout,
    c: StartEndVia,
) -> bool {
    let board = r0.board;
    let route = l1.diag_route_step_vec@;
    &&& is_lowest_cost_route(
        search_graph(&r0, &n0, l0.settings, c.start),
        LayerVia { via: c.end, is_wire_layer: false },
        route,
        l1.cost - l0.cost,
    )
    &&& l1 == (Layout {
        cost: l1.cost,
        route_vec: l1.route_vec,
        diag_route_step_vec: l1.diag_route_step_vec,
        diag_start_via: l1.diag_start_via,
        diag_end_via: l1.diag_end_via,
        ..l0
    })
    &&& l1.route_vec@.len() == l0.route_vec@.len() + 1
    &&& forall|r: int| 0 <= r < l0.route_vec@.len() ==> #[trigger] l1.route_vec@[r] == l0.route_vec@[r]
    &&& l1.route_vec@[l0.route_vec@.len() as int]@ == sections_of(route)
    &&& committed_ok(&r1, sections_of(route))
    &&& forall|v: Via|
        board.contains(v) ==> (#[trigger] r1.blocked(v) <==> r0.blocked(v) || route.contains(
            LayerVia { via: v, is_wire_layer: true },
        ))
    &&& forall|k: int| #[trigger]
        lasting(sections_of(route), k, sections_of(route).len() as int) ==> r1.jump(
            sections_of(route)[k].start.via,
        ) == (ValidVia { via: sections_of(route)[k].end.via, is_valid: true }) && r1.jump(
            sections_of(route)[k].end.via,
        ) == (ValidVia { via: sections_of(route)[k].start.via, is_valid: true })
    &&& forall|a: LayerStartEndVia|
        board.contains(a.start.via) && board.contains(a.end.via) && #[trigger] points(&r0, a) && agrees_all(
            a,
            sections_of(route),
            sections_of(route).len() as int,
        ) ==> points(&r1, a)
    &&& if route.len() >= 2 {
        (n1.set_idx_vec@, n1.via_set_vec@.len() as int) == connect_route_idx(
            board,
            n0.set_idx_vec@,
            n0.via_set_vec@.len() as int,
            route,
            route.len() as int,
        )
    } else {
        n1 == n0
    }
}

/// Whether `b` is `a` but for what a routing attempt fills in: the cost, the counts, the
/// routes found, the status of each connection and what is kept for diagnosis.
pub open spec fn same_input(a: Layout, b: Layout) -> bool {
    b == (Layout {
        cost: b.cost,
        n_completed_routes: b.n_completed_routes,
        n_failed_routes: b.n_failed_routes,
        route_vec: b.route_vec,
        route_status_vec: b.route_status_vec,
        diag_route_step_vec: b.diag_route_step_vec,
        diag_start_via: b.diag_start_via,
        diag_end_via: b.diag_end_via,
        ..a
    })
}

/// Whether the routes of `b` are those of `a` and `added` more.
pub open spec fn routes_added(a: Layout, b: Layout, added: int) -> bool {
    &&& b.route_vec@.len() == a.route_vec@.len() + added
    &&& forall|r: int| 0 <= r < a.route_vec@.len() ==> #[trigger] b.route_vec@[r] == a.route_vec@[r]
}

/// The place of `v` when the board is read column by column.
pub open spec fn column_place(board: Board, v: Via) -> int {
    v.x * board.h + v.y
}

/// A list of vias of the board in which each comes before the next, column by column, is
/// no longer than the board has vias.
pub proof fn lemma_cuts_fit(board: Board, cuts: Seq<Via>)
    requires
        forall|i: int| 0 <= i < cuts.len() ==> board.contains(#[trigger] cuts[i]),
        forall|i: int, j: int| 0 <= i < j < cuts.len() ==> column_order(#[trigger] cuts[i], #[trigger] cuts[j]),
    ensures
        cuts.len() <= board.spec_size(),
{
    if cuts.len() > 0 {
        lemma_place_grows(board, cuts, cuts.len() - 1);
        let last = cuts[cuts.len() - 1];
        assert(column_place(board, last) < board.w * board.h) by (nonlinear_arith)
            requires
                column_place(board, last) == last.x * board.h + last.y,
                last.x < board.w,
                last.y < board.h,
        ;
    }
}

proof fn lemma_place_grows(board: Board, cuts: Seq<Via>, i: int)
    requires
        0 <= i < cuts.len(),
        forall|i: int| 0 <= i < cuts.len() ==> board.contains(#[trigger] cuts[i]),
        forall|i: int, j: int| 0 <= i < j < cuts.len() ==> column_order(#[trigger] cuts[i], #[trigger] cuts[j]),
    ensures
        column_place(board, cuts[i]) >= i,
    decreases i,
{
    let b = cuts[i];
    if i > 0 {
        lemma_place_grows(board, cuts, i - 1);
        let a = cuts[i - 1];
        assert(column_order(a, b));
        assert(column_place(board, a) < column_place(board, b)) by (nonlinear_arith)
            requires
                column_place(board, a) == a.x * board.h + a.y,
                column_place(board, b) == b.x * board.h + b.y,
                a.x < b.x || (a.x == b.x && a.y < b.y),
                a.y < board.h,
                b.y < board.h,
        ;
    } else {
        assert(column_place(board, b) >= 0) by (nonlinear_arith)
            requires
                column_place(board, b) == b.x * board.h + b.y,
        ;
    }
}

/// What one attempt leaves behind. `r0`, `n0` and `l0` are the router, the nets and the
/// layout before the attempt at connection `idx`, whose ends are `c`; `r1`, `n1` and
/// `l1` those after it. Where a walk leads from one end to the other, a cheapest route
/// was committed, see [`committed`], and counted as completed; where none does, the
/// attempt was counted as failed and nothing else has changed. The status of the
/// connection says which.
pub open spec fn tried(r0: Router, n0: Nets, l0: Layout, r1: Router, n1: Nets, l1: Layout, c: StartEndVia, idx: int) -> bool {
    let found = search_graph(&r0, &n0, l0.settings, c.start).reachable(
        LayerVia { via: c.start, is_wire_layer: false },
        LayerVia { via: c.end, is_wire_layer: false },
    );
    &&& 0 <= idx < l0.route_status_vec@.len()
    &&& l1.route_status_vec@ == l0.route_status_vec@.update(idx, found)
    &&& if found {
        &&& l1.n_completed_routes == l0.n_completed_routes + 1
        &&& committed(
            r0,
            n0,
            l0,
            r1,
            n1,
            Layout { n_completed_routes: l0.n_completed_routes, route_status_vec: l0.route_status_vec, ..l1 },
            c,
        )
    } else {
        &&& r1 == r0
        &&& n1 == n0
        &&& l1 == (Layout {
            n_failed_routes: (l0.n_failed_routes + 1) as usize,
            route_status_vec: l1.route_status_vec,
            ..l0
        })
    }
}

/// What the attempts at the first `k` connections of `order` leave behind, one after the
/// other: see [`tried`]. `vias` holds the ends of every connection of the circuit.
pub open spec fn tried_in_order(
    r0: Router,
    n0: Nets,
    l0: Layout,
    r1: Router,
    n1: Nets,
    l1: Layout,
    vias: Seq<StartEndVia>,
    order: Seq<usize>,
    k: int,
) -> bool
    decreases k,
{
    if k <= 0 {
        r1 == r0 && n1 == n0 && l1 == l0
    } else {
        exists|rm: Router, nm: Nets, lm: Layout|
            tried_in_order(r0, n0, l0, rm, nm, lm, vias, order, k - 1) && #[trigger] tried(
                rm,
                nm,
                lm,
                r1,
                n1,
                l1,
                vias[order[k - 1] as int],
                order[k - 1] as int,
            )
    }
}

/// The ends of every connection of `circuit`.
pub open spec fn connection_ends(circuit: &Circuit) -> Seq<StartEndVia> {
    Seq::new(circuit.connection_vec@.len(), |i: int| circuit.connection_vias(i))
}

/// Whether `b` is `a` with one status for each connection of its circuit: those that `a`
/// has, and `false` for the rest.
pub open spec fn with_statuses(a: Layout, b: Layout) -> bool {
    &&& b == (Layout { route_status_vec: b.route_status_vec, ..a })
    &&& b.route_status_vec@.len() == a.circuit.connection_vec@.len()
    &&& forall|i: int|
        0 <= i < b.route_status_vec@.len() ==> #[trigger] b.route_status_vec@[i] == (i
            < a.route_status_vec@.len() && a.route_status_vec@[i])
}

/// Whether `nj` holds the nets of `n0` after the two ends of every connection of
/// `circuit` have been connected.
pub open spec fn joined(n0: Nets, nj: Nets, board: Board, circuit: &Circuit) -> bool {
    &&& nj.wf(board)
    &&& (nj.set_idx_vec@, nj.via_set_vec@.len() as int) == join_idx(
        board,
        n0.set_idx_vec@,
        n0.via_set_vec@.len() as int,
        circuit,
        circuit.connection_vec@.len() as int,
    )
}

/// What the preparation of a routing attempt leaves behind. `r0` and `n0` are the router
/// and the nets before it, `rs` and `ns` those after it: the wire layer over every
/// component is taken, the two ends of every connection are in one net, and every pin in
/// use is recorded and belongs to a net, of its own where it had none.
pub open spec fn set_up(r0: Router, n0: Nets, circuit: &Circuit, rs: Router, ns: Nets) -> bool {
    let board = r0.board;
    let n_components = circuit.component_name_to_component_map@.len() as int;
    &&& rs.wf(board)
    &&& ns.wf(board)
    &&& forall|v: Via|
        board.contains(v) ==> (#[trigger] rs.blocked(v) <==> r0.blocked(v) || in_footprints(
            circuit,
            n_components,
            v,
        ))
    &&& forall|v: Via| board.contains(v) ==> #[trigger] rs.jump(v) == r0.jump(v)
    &&& forall|v: Via|
        board.contains(v) ==> (#[trigger] rs.is_pin(v) <==> r0.is_pin(v) || has_active_pin(
            circuit,
            n_components,
            v,
        ))
    &&& exists|nj: Nets|
        {
            &&& #[trigger] joined(n0, nj, board, circuit)
            &&& forall|v: Via|
                board.contains(v) ==> (#[trigger] ns.has(board, v) <==> nj.has(board, v) || has_active_pin(
                    circuit,
                    n_components,
                    v,
                ))
            &&& forall|u: Via, v: Via|
                board.contains(u) && board.contains(v) ==> (#[trigger] ns.connected(board, u, v)
                    <==> nj.connected(board, u, v) || (u == v && has_active_pin(circuit, n_components, v)))
        }
}

/// What the end of a routing attempt adds to the layout `lr` that the attempts at the
/// connections have left: the cuts of the final nets, their cost, and the final nets.
pub open spec fn finished(lr: Layout, l1: Layout, r1: Router, n1: Nets) -> bool {
    &&& l1 == (Layout {
        cost: l1.cost,
        strip_cut_vec: l1.strip_cut_vec,
        set_idx_vec: l1.set_idx_vec,
        via_set_vec: l1.via_set_vec,
        ..lr
    })
    &&& lists_cuts(&r1, &n1, l1.strip_cut_vec@)
    &&& l1.cost == lr.cost + lr.settings.cut_cost * l1.strip_cut_vec@.len()
    &&& l1.set_idx_vec@ == n1.set_idx_vec@
    &&& l1.via_set_vec@.len() == n1.via_set_vec@.len()
    &&& forall|k: int| 0 <= k < l1.via_set_vec@.len() ==> (#[trigger] l1.via_set_vec@[k])@ == n1.via_set_vec@[k]@
}

/// The course of a routing attempt from the router `r0`, the nets `n0` and the layout
/// `l0` to `r1`, `n1` and `l1`: the preparation, see [`set_up`]; the attempts at the
/// first `k` connections of `order`, one after the other, see [`tried_in_order`]; and
/// the end, see [`finished`].
pub open spec fn routed_in_order(
    r0: Router,
    n0: Nets,
    l0: Layout,
    r1: Router,
    n1: Nets,
    l1: Layout,
    order: Seq<usize>,
    k: int,
) -> bool {
    exists|rs: Router, ns: Nets, ls: Layout, lr: Layout|
        {
            &&& set_up(r0, n0, &l0.circuit, rs, ns)
            &&& with_statuses(l0, ls)
            &&& #[trigger] tried_in_order(rs, ns, ls, r1, n1, lr, connection_ends(&l0.circuit), order, k)
            &&& finished(lr, l1, r1, n1)
        }
}

impl Router {
    /// The tables cover `board`.
    pub open spec fn wf(&self, board: Board) -> bool {
        &&& self.board == board
        &&& board.wf()
        &&& self.all_pin_set@.len() == board.spec_size()
        &&& self.via_trace_vec@.len() == board.spec_size()
    }

    /// Whether the wire-layer cell at `v` is taken.
    pub open spec fn blocked(&self, v: Via) -> bool {
        self.via_trace_vec@[self.board.spec_idx(v)].is_wire_side_blocked
    }

    /// The far end of the committed jumper that ends at `v`, if one does.
    pub open spec fn jump(&self, v: Via) -> ValidVia {
        self.via_trace_vec@[self.board.spec_idx(v)].wire_to_via
    }

    /// Whether a pin in use sits at `v`.
    pub open spec fn is_pin(&self, v: Via) -> bool {
        self.all_pin_set@[self.board.spec_idx(v)]
    }

    /// Whether a route that starts at the pin `start` may enter `node`: the node lies on
    /// the board and, on the wire layer, its cell is free; on the strip layer, the via
    /// neither belongs to a foreign net nor holds a foreign pin.
    pub open spec fn available(&self, nets: &Nets, node: LayerVia, start: Via) -> bool {
        &&& self.board.contains(node.via)
        &&& if node.is_wire_layer {
            !self.blocked(node.via)
        } else {
            &&& !(nets.has(self.board, node.via) && !nets.connected(self.board, node.via, start))
            &&& !(self.is_pin(node.via) && !nets.connected(self.board, node.via, start))
        }
    }

    /// A router for `board` with a free wire layer, no jumpers and no pins.
    pub fn new(board: Board) -> (r: Self)
        requires
            board.wf(),
        ensures
            r.wf(board),
            forall|v: Via| board.contains(v) ==> !r.blocked(v) && !r.jump(v).is_valid && !r.is_pin(v),
    {
        let n = board.size();
        let mut all_pin_set: Vec<bool> = Vec::new();
        let mut via_trace_vec: Vec<WireLayerVia> = Vec::new();
        let mut i: usize = 0;
        while i < n
            invariant
                i <= n,
                all_pin_set@.len() == i,
                via_trace_vec@.len() == i,
                forall|j: int| 0 <= j < i ==> !all_pin_set@[j],
                forall|j: int|
                    0 <= j < i ==> !via_trace_vec@[j].is_wire_side_blocked
                        && !via_trace_vec@[j].wire_to_via.is_valid,
            decreases n - i,
        {
            all_pin_set.push(false);
            via_trace_vec.push(WireLayerVia::new());
            i += 1;
        }
        let r = Self { board, all_pin_set, via_trace_vec };
        proof {
            assert forall|v: Via| board.contains(v) implies !r.blocked(v) && !r.jump(v).is_valid
                && !r.is_pin(v) by {
                board.lemma_idx(v);
            }
        }
        r
    }

    /// Whether a route that starts at the pin `start_node` may enter `cur_node`.
    pub fn is_available(&self, board: Board, nets: &Nets, cur_node: LayerVia, start_node: Via) -> (r: bool)
        requires
            self.wf(board),
            nets.wf(board),
            board.contains(start_node),
        ensures
            r == self.available(nets, cur_node, start_node),
    {
        if cur_node.via.x >= board.w || cur_node.via.y >= board.h {
            return false;
        }
        if cur_node.is_wire_layer {
            if self.is_blocked(board, cur_node.via) {
                return false;
            }
        } else {
            // A via that belongs to a net must belong to ours.
            if nets.has_connection(board, cur_node.via) && !nets.is_connected(
                board,
                cur_node.via,
                start_node,
            ) {
                return false;
            }
            // A pin must be one of ours.
            if self.is_any_pin(board, cur_node.via) {
                if !nets.is_connected(board, cur_node.via, start_node) {
                    return false;
                }
            }
        }
        true
    }

    /// Whether a pin in use sits at `via`.
    pub fn is_any_pin(&self, board: Board, via: Via) -> (r: bool)
        requires
            self.wf(board),
            board.contains(via),
        ensures
            r == self.is_pin(via),
    {
        self.all_pin_set[board.idx(via)]
    }

    /// The far end of the committed jumper that ends at `via`, if one does.
    pub fn wire_to_via(&self, board: Board, via: Via) -> (r: ValidVia)
        requires
            self.wf(board),
            board.contains(via),
        ensures
            r == self.jump(via),
    {
        self.via_trace_vec[board.idx(via)].wire_to_via
    }

    /// The place where the far end of the jumper at `via` is recorded, for writing.
    pub fn wire_to_via_ref(&mut self, board: Board, via: Via) -> (r: &mut ValidVia)
        requires
            old(self).wf(board),
            board.contains(via),
        ensures
            *r == old(self).jump(via),
            final(self).board == old(self).board,
            final(self).all_pin_set == old(self).all_pin_set,
            final(self).via_trace_vec@ == old(self).via_trace_vec@.update(
                board.spec_idx(via),
                WireLayerVia {
                    is_wire_side_blocked: old(self).via_trace_vec@[board.spec_idx(via)].is_wire_side_blocked,
                    wire_to_via: *final(r),
                },
            ),
    {
        let i = board.idx(via);
        &mut self.via_trace_vec[i].wire_to_via
    }

    /// Takes the wire-layer cell at `via`.
    pub fn block(&mut self, board: Board, via: Via)
        requires
            old(self).wf(board),
            board.contains(via),
        ensures
            final(self).wf(board),
            final(self).all_pin_set == old(self).all_pin_set,
            final(self).via_trace_vec@ == old(self).via_trace_vec@.update(
                board.spec_idx(via),
                WireLayerVia {
                    is_wire_side_blocked: true,
                    wire_to_via: old(self).via_trace_vec@[board.spec_idx(via)].wire_to_via,
                },
            ),
            forall|v: Via| board.contains(v) ==> (#[trigger] final(self).blocked(v) <==> old(self).blocked(v) || v == via),
            forall|v: Via| board.contains(v) ==> #[trigger] final(self).jump(v) == old(self).jump(v),
            forall|v: Via| board.contains(v) ==> #[trigger] final(self).is_pin(v) == old(self).is_pin(v),
    {
        let i = board.idx(via);
        let mut cell = self.via_trace_vec[i];
        cell.is_wire_side_blocked = true;
        self.via_trace_vec[i] = cell;
        proof {
            let before = *old(self);
            let after = *self;
            assert forall|v: Via| board.contains(v) implies (#[trigger] after.blocked(v) <==> before.blocked(v)
                || v == via) by {
                board.lemma_idx(v);
                if board.spec_idx(v) == board.spec_idx(via) {
                    board.lemma_idx_injective(v, via);
                }
            }
            assert forall|v: Via| board.contains(v) implies #[trigger] after.jump(v) == before.jump(v) by {
                board.lemma_idx(v);
            }
            assert forall|v: Via| board.contains(v) implies #[trigger] after.is_pin(v) == before.is_pin(v) by {
                board.lemma_idx(v);
            }
        }
    }

    /// Whether the wire-layer cell at `via` is taken.
    pub fn is_blocked(&self, board: Board, via: Via) -> (r: bool)
        requires
            self.wf(board),
            board.contains(via),
        ensures
            r == self.blocked(via),
    {
        self.via_trace_vec[board.idx(via)].is_wire_side_blocked
    }

    /// Takes every cell of the wire layer over which the route passes.
    pub fn block_route(&mut self, board: Board, route_step_vec: &Vec<LayerVia>)
        requires
            old(self).wf(board),
            forall|i: int| 0 <= i < route_step_vec@.len() ==> board.contains(#[trigger] route_step_vec@[i].via),
        ensures
            final(self).wf(board),
            final(self).all_pin_set == old(self).all_pin_set,
            forall|v: Via|
                board.contains(v) ==> (#[trigger] final(self).blocked(v) <==> old(self).blocked(v)
                    || route_step_vec@.contains(LayerVia { via: v, is_wire_layer: true })),
            forall|v: Via| board.contains(v) ==> #[trigger] final(self).jump(v) == old(self).jump(v),
            forall|v: Via| board.contains(v) ==> #[trigger] final(self).is_pin(v) == old(self).is_pin(v),
    {
        let n = route_step_vec.len();
        let mut i: usize = 0;
        while i < n
            invariant
                i <= n,
                n == route_step_vec@.len(),
                self.wf(board),
                self.all_pin_set == old(self).all_pin_set,
                forall|i: int|
                    0 <= i < route_step_vec@.len() ==> board.contains(#[trigger] route_step_vec@[i].via),
                forall|v: Via|
                    board.contains(v) ==> (#[trigger] self.blocked(v) <==> old(self).blocked(v)
                        || route_step_vec@.subrange(0, i as int).contains(
                        LayerVia { via: v, is_wire_layer: true },
                    )),
                forall|v: Via| board.contains(v) ==> #[trigger] self.jump(v) == old(self).jump(v),
                forall|v: Via| board.contains(v) ==> #[trigger] self.is_pin(v) == old(self).is_pin(v),
            decreases n - i,
        {
            let c = route_step_vec[i];
            let ghost before = *self;
            let ghost shorter = route_step_vec@.subrange(0, i as int);
            let ghost longer = route_step_vec@.subrange(0, i as int + 1);
            if c.is_wire_layer {
                self.block(board, c.via);
            }
            proof {
                assert(longer =~= shorter.push(c));
                assert forall|v: Via| board.contains(v) implies (#[trigger] self.blocked(v) <==> old(self).blocked(v) || longer.contains(LayerVia { via: v, is_wire_layer: true })) by {
                    let node = LayerVia { via: v, is_wire_layer: true };
                    assert(before.blocked(v) <==> old(self).blocked(v) || shorter.contains(node));
                    if shorter.contains(node) {
                        let j = choose|j: int| 0 <= j < shorter.len() && shorter[j] == node;
                        assert(longer[j] == node);
                    }
                    if c == node {
                        assert(longer[i as int] == node);
                    }
                    if longer.contains(node) {
                        let j = choose|j: int| 0 <= j < longer.len() && longer[j] == node;
                        if j < i {
                            assert(shorter[j] == node);
                        }
                    }
                }
                assert forall|v: Via| board.contains(v) implies #[trigger] self.jump(v) == old(self).jump(v) by {
                    assert(before.jump(v) == old(self).jump(v));
                }
                assert forall|v: Via| board.contains(v) implies #[trigger] self.is_pin(v) == old(self).is_pin(
                    v,
                ) by {
                    assert(before.is_pin(v) == old(self).is_pin(v));
                }
            }
            i += 1;
        }
        proof {
            assert(route_step_vec@.subrange(0, n as int) =~= route_step_vec@);
        }
    }

    /// Records the far end `far` for the jumper that ends at `via`.
    fn set_wire_to_via(&mut self, board: Board, via: Via, far: Via)
        requires
            old(self).wf(board),
            board.contains(via),
        ensures
            final(self).wf(board),
            final(self).all_pin_set == old(self).all_pin_set,
            final(self).via_trace_vec@ == old(self).via_trace_vec@.update(
                board.spec_idx(via),
                with_far_end(old(self).via_trace_vec@[board.spec_idx(via)], far),
            ),
    {
        let i = board.idx(via);
        let mut cell = self.via_trace_vec[i];
        cell.wire_to_via = ValidVia::from_via(far);
        self.via_trace_vec[i] = cell;
    }

    /// Records the two ends of each wire section as each other's far end, so that later
    /// searches can pass through the jumper in one step.
    pub fn add_wire_jumps(&mut self, board: Board, route_section_vec: &Vec<LayerStartEndVia>)
        requires
            old(self).wf(board),
            forall|k: int|
                0 <= k < route_section_vec@.len() ==> board.contains(
                    (#[trigger] route_section_vec@[k]).start.via,
                ) && board.contains(route_section_vec@[k].end.via),
        ensures
            final(self).wf(board),
            final(self).all_pin_set == old(self).all_pin_set,
            final(self).via_trace_vec@ == with_jumps(
                old(self).via_trace_vec@,
                board,
                route_section_vec@,
                route_section_vec@.len() as int,
            ),
            forall|v: Via| board.contains(v) ==> #[trigger] final(self).blocked(v) == old(self).blocked(v),
            forall|v: Via| board.contains(v) ==> #[trigger] final(self).is_pin(v) == old(self).is_pin(v),
            forall|k: int| #[trigger]
                lasting(route_section_vec@, k, route_section_vec@.len() as int) ==> final(self).jump(
                    route_section_vec@[k].start.via,
                ) == (ValidVia { via: route_section_vec@[k].end.via, is_valid: true }) && final(self).jump(
                    route_section_vec@[k].end.via,
                ) == (ValidVia { via: route_section_vec@[k].start.via, is_valid: true }),
            forall|a: LayerStartEndVia|
                board.contains(a.start.via) && board.contains(a.end.via) && #[trigger] points(old(self), a)
                    && agrees_all(a, route_section_vec@, route_section_vec@.len() as int) ==> points(
                    final(self),
                    a,
                ),
    {
        let n = route_section_vec.len();
        let mut i: usize = 0;
        while i < n
            invariant
                i <= n,
                n == route_section_vec@.len(),
                self.wf(board),
                self.all_pin_set == old(self).all_pin_set,
                forall|k: int|
                    0 <= k < route_section_vec@.len() ==> board.contains(
                        (#[trigger] route_section_vec@[k]).start.via,
                    ) && board.contains(route_section_vec@[k].end.via),
                self.via_trace_vec@ == with_jumps(old(self).via_trace_vec@, board, route_section_vec@, i as int),
                forall|v: Via| board.contains(v) ==> #[trigger] self.blocked(v) == old(self).blocked(v),
                forall|v: Via| board.contains(v) ==> #[trigger] self.is_pin(v) == old(self).is_pin(v),
                forall|k: int| #[trigger]
                    lasting(route_section_vec@, k, i as int) ==> self.jump(route_section_vec@[k].start.via) == (
                    ValidVia { via: route_section_vec@[k].end.via, is_valid: true }) && self.jump(
                        route_section_vec@[k].end.via,
                    ) == (ValidVia { via: route_section_vec@[k].start.via, is_valid: true }),
                forall|a: LayerStartEndVia|
                    board.contains(a.start.via) && board.contains(a.end.via) && #[trigger] points(old(self), a)
                        && agrees_all(a, route_section_vec@, i as int) ==> points(self, a),
            decreases n - i,
        {
            let section = route_section_vec[i];
            let start = section.start;
            let end = section.end;
            let ghost before = *self;
            if start.is_wire_layer {
                self.set_wire_to_via(board, start.via, end.via);
                self.set_wire_to_via(board, end.via, start.via);
            }
            proof {
                let after = *self;
                board.lemma_idx(start.via);
                board.lemma_idx(end.via);
                assert forall|v: Via| board.contains(v) implies #[trigger] after.blocked(v) == old(self).blocked(
                    v,
                ) by {
                    board.lemma_idx(v);
                    assert(before.blocked(v) == old(self).blocked(v));
                }
                assert forall|v: Via| board.contains(v) implies #[trigger] after.is_pin(v) == old(self).is_pin(
                    v,
                ) by {
                    assert(before.is_pin(v) == old(self).is_pin(v));
                }
                assert forall|k: int| #[trigger] lasting(route_section_vec@, k, i + 1) implies after.jump(
                    route_section_vec@[k].start.via,
                ) == (ValidVia { via: route_section_vec@[k].end.via, is_valid: true }) && after.jump(
                    route_section_vec@[k].end.via,
                ) == (ValidVia { via: route_section_vec@[k].start.via, is_valid: true }) by {
                    let sk = route_section_vec@[k];
                    board.lemma_idx(sk.start.via);
                    board.lemma_idx(sk.end.via);
                    if board.spec_idx(sk.start.via) == board.spec_idx(start.via) {
                        board.lemma_idx_injective(sk.start.via, start.via);
                    }
                    if board.spec_idx(sk.start.via) == board.spec_idx(end.via) {
                        board.lemma_idx_injective(sk.start.via, end.via);
                    }
                    if board.spec_idx(sk.end.via) == board.spec_idx(start.via) {
                        board.lemma_idx_injective(sk.end.via, start.via);
                    }
                    if board.spec_idx(sk.end.via) == board.spec_idx(end.via) {
                        board.lemma_idx_injective(sk.end.via, end.via);
                    }
                    if k < i {
                        assert(lasting(route_section_vec@, k, i as int));
                        assert(agrees(sk, route_section_vec@[i as int]));
                    }
                }
                assert forall|a: LayerStartEndVia|
                    board.contains(a.start.via) && board.contains(a.end.via) && #[trigger] points(old(self), a)
                        && agrees_all(a, route_section_vec@, i + 1) implies points(&after, a) by {
                    assert(agrees(a, route_section_vec@[i as int]));
                    assert(agrees_all(a, route_section_vec@, i as int));
                    assert(points(&before, a));
                    board.lemma_idx(a.start.via);
                    board.lemma_idx(a.end.via);
                    if board.spec_idx(a.start.via) == board.spec_idx(start.via) {
                        board.lemma_idx_injective(a.start.via, start.via);
                    }
                    if board.spec_idx(a.start.via) == board.spec_idx(end.via) {
                        board.lemma_idx_injective(a.start.via, end.via);
                    }
                    if board.spec_idx(a.end.via) == board.spec_idx(start.via) {
                        board.lemma_idx_injective(a.end.via, start.via);
                    }
                    if board.spec_idx(a.end.via) == board.spec_idx(end.via) {
                        board.lemma_idx_injective(a.end.via, end.via);
                    }
                }
            }
            i += 1;
        }
    }

    /// Cuts the steps of a route into its sections.
    pub fn condense_route(&self, route_step_vec: &Vec<LayerVia>) -> (sections: Vec<LayerStartEndVia>)
        requires
            route_step_vec@.len() >= 1,
        ensures
            sections@ == sections_of(route_step_vec@),
    {
        condense(route_step_vec)
    }

    /// Whether `via` is taken by a net or by a pin.
    fn is_occupied(&self, board: Board, nets: &Nets, via: Via) -> (r: bool)
        requires
            self.wf(board),
            nets.wf(board),
            board.contains(via),
        ensures
            r == occupied(self, nets, via),
    {
        nets.has_connection(board, via) || self.is_any_pin(board, via)
    }

    /// The cuts of column `x`, from the top, added to `v`.
    fn find_strip_cuts_in_column(&self, board: Board, nets: &Nets, x: usize, v: &mut Vec<Via>)
        requires
            self.wf(board),
            nets.wf(board),
            x < board.w,
            forall|i: int|
                0 <= i < old(v)@.len() ==> board.contains(#[trigger] old(v)@[i]) && is_cut(self, nets, old(v)@[i])
                    && old(v)@[i].x < x,
            forall|u: Via|
                board.contains(u) && u.x < x && #[trigger] is_cut(self, nets, u) ==> old(v)@.contains(u),
            forall|i: int, j: int|
                0 <= i < j < old(v)@.len() ==> column_order(#[trigger] old(v)@[i], #[trigger] old(v)@[j]),
        ensures
            forall|i: int|
                0 <= i < final(v)@.len() ==> board.contains(#[trigger] final(v)@[i]) && is_cut(
                    self,
                    nets,
                    final(v)@[i],
                ) && final(v)@[i].x <= x,
            forall|u: Via|
                board.contains(u) && u.x <= x && #[trigger] is_cut(self, nets, u) ==> final(v)@.contains(u),
            forall|i: int, j: int|
                0 <= i < j < final(v)@.len() ==> column_order(#[trigger] final(v)@[i], #[trigger] final(v)@[j]),
    {
        if board.h == 0 {
            return ;
        }
        let mut is_used = self.is_occupied(board, nets, Via::new(x, 0));
        let mut y: usize = 1;
        proof {
            let top = Via { x, y: 1 };
            if is_used {
                assert(occupied_at(self, nets, top, 0));
            }
        }
        while y < board.h
            invariant
                1 <= y <= board.h,
                self.wf(board),
                nets.wf(board),
                x < board.w,
                is_used == used_above(self, nets, Via { x, y }),
                forall|i: int|
                    0 <= i < v@.len() ==> board.contains(#[trigger] v@[i]) && is_cut(self, nets, v@[i]) && (
                    v@[i].x < x || (v@[i].x == x && v@[i].y < y)),
                forall|u: Via|
                    board.contains(u) && (u.x < x || (u.x == x && u.y < y)) && #[trigger] is_cut(self, nets, u)
                        ==> v@.contains(u),
                forall|i: int, j: int| 0 <= i < j < v@.len() ==> column_order(#[trigger] v@[i], #[trigger] v@[j]),
            decreases board.h - y,
        {
            let prev_via = Via::new(x, y - 1);
            let cur_via = Via::new(x, y);
            let ghost before = v@;
            let is_connected = nets.is_connected(board, cur_via, prev_via);
            let is_foreign_here = self.is_occupied(board, nets, cur_via) && !is_connected;
            if is_foreign_here {
                if is_used {
                    v.push(cur_via);
                }
                is_used = true;
            }
            proof {
                let next = Via { x, y: (y + 1) as usize };
                assert(is_foreign_here == is_foreign(self, nets, cur_via));
                // Whether the strip is in use above the next cell.
                if used_above(self, nets, cur_via) {
                    let y0 = choose|y0: int| 0 <= y0 < cur_via.y && #[trigger] occupied_at(self, nets, cur_via, y0);
                    assert(occupied_at(self, nets, next, y0));
                }
                if occupied(self, nets, cur_via) {
                    assert(occupied_at(self, nets, next, y as int));
                    if !is_foreign_here {
                        assert(nets.connected(board, cur_via, prev_via));
                        assert(occupied_at(self, nets, cur_via, y - 1));
                    }
                }
                if used_above(self, nets, next) {
                    let y0 = choose|y0: int| 0 <= y0 < next.y && #[trigger] occupied_at(self, nets, next, y0);
                    if y0 < y {
                        assert(occupied_at(self, nets, cur_via, y0));
                    }
                }
                assert(is_used == used_above(self, nets, next));
                assert forall|u: Via|
                    board.contains(u) && (u.x < x || (u.x == x && u.y < y + 1)) && #[trigger] is_cut(
                        self,
                        nets,
                        u,
                    ) implies v@.contains(u) by {
                    if u == cur_via {
                        assert(v@[before.len() as int] == cur_via);
                    } else {
                        assert(before.contains(u));
                        let j = choose|j: int| 0 <= j < before.len() && before[j] == u;
                        assert(v@[j] == u);
                    }
                }
                assert forall|i: int, j: int| 0 <= i < j < v@.len() implies column_order(
                    #[trigger] v@[i],
                    #[trigger] v@[j],
                ) by {
                    if j < before.len() {
                        assert(column_order(before[i], before[j]));
                    } else {
                        assert(v@[i] == before[i]);
                    }
                }
            }
            y += 1;
        }
    }

    /// Where the strips have to be cut: wherever a strip that is already in use meets a
    /// new occupant, a net or a pin that is not connected to the cell above it. The cuts
    /// are listed column by column, each from the top.
    pub fn find_strip_cuts(&self, board: Board, nets: &Nets) -> (cuts: Vec<Via>)
        requires
            self.wf(board),
            nets.wf(board),
        ensures
            lists_cuts(self, nets, cuts@),
    {
        let mut v: Vec<Via> = Vec::new();
        let mut x: usize = 0;
        while x < board.w
            invariant
                x <= board.w,
                self.wf(board),
                nets.wf(board),
                forall|i: int|
                    0 <= i < v@.len() ==> board.contains(#[trigger] v@[i]) && is_cut(self, nets, v@[i])
                        && v@[i].x < x,
                forall|u: Via| board.contains(u) && u.x < x && #[trigger] is_cut(self, nets, u) ==> v@.contains(u),
                forall|i: int, j: int| 0 <= i < j < v@.len() ==> column_order(#[trigger] v@[i], #[trigger] v@[j]),
            decreases board.w - x,
        {
            self.find_strip_cuts_in_column(board, nets, x, &mut v);
            x += 1;
        }
        v
    }

    /// Searches a cheapest route for one connection and, where there is one, commits it:
    /// takes the cells of the wire layer under it, connects its strip-layer steps in the
    /// nets, records its jumpers and adds its sections to the layout. Returns whether a
    /// route was found.
    pub fn find_route(&mut self, board: Board, layout: &mut Layout, nets: &mut Nets, start_end_via: StartEndVia) -> (found: bool)
        requires
            old(self).wf(board),
            old(nets).wf(board),
            board.contains(start_end_via.start),
            board.contains(start_end_via.end),
            settings_fit(board, old(layout).settings),
            old(layout).cost + route_cost_limit(board, old(layout).settings) <= usize::MAX,
        ensures
            final(self).wf(board),
            final(nets).wf(board),
            found <==> search_graph(old(self), old(nets), old(layout).settings, start_end_via.start).reachable(
                LayerVia { via: start_end_via.start, is_wire_layer: false },
                LayerVia { via: start_end_via.end, is_wire_layer: false },
            ),
            !found ==> *final(self) == *old(self) && *final(nets) == *old(nets) && *final(layout) == *old(layout),
            found ==> committed(
                *old(self),
                *old(nets),
                *old(layout),
                *final(self),
                *final(nets),
                *final(layout),
                start_end_via,
            ),
            grown(old(self), final(self)),
            nets_grown(board, old(nets), final(nets)),
            final(layout).cost - old(layout).cost <= route_cost_limit(board, old(layout).settings),
            final(layout).cost >= old(layout).cost,
    {
        let ghost g = search_graph(self, nets, layout.settings, start_end_via.start);
        let ghost end = LayerVia { via: start_end_via.end, is_wire_layer: false };
        let ghost r0 = *self;
        let ghost l0 = *layout;
        let mut ucs = UniformCostSearch::new(board);
        let route_step_vec = ucs.find_lowest_cost_route(board, layout, nets, self, start_end_via);
        if route_step_vec.len() == 0 {
            return false;
        }
        let ghost route = route_step_vec@;
        proof {
            lemma_route_cost_bounded(g, end, route, layout.cost - l0.cost);
        }
        self.block_route(board, &route_step_vec);
        let ghost r_blocked = *self;
        if route_step_vec.len() >= 2 {
            nets.connect_route(board, &route_step_vec);
        }
        let route_section_vec = self.condense_route(&route_step_vec);
        proof {
            assert forall|i: int| 0 <= i < route.len() && (#[trigger] route[i]).is_wire_layer implies r_blocked.blocked(
                route[i].via,
            ) by {
                assert(route.contains(LayerVia { via: route[i].via, is_wire_layer: true }));
            }
            lemma_route_committed(&r_blocked, route);
        }
        self.add_wire_jumps(board, &route_section_vec);
        layout.route_vec.push(route_section_vec);
        proof {
            assert(grown(&r_blocked, self));
            lemma_committed_grown(&r_blocked, self, sections_of(route));
            assert forall|v: Via| board.contains(v) implies (#[trigger] self.blocked(v) <==> r0.blocked(v)
                || route.contains(LayerVia { via: v, is_wire_layer: true })) by {
                assert(self.blocked(v) == r_blocked.blocked(v));
            }
            assert forall|v: Via| r0.board.contains(v) && r0.blocked(v) implies #[trigger] self.blocked(v) by {
                assert(self.blocked(v) == r_blocked.blocked(v));
            }
            assert forall|a: LayerStartEndVia|
                board.contains(a.start.via) && board.contains(a.end.via) && #[trigger] points(&r0, a)
                    && agrees_all(a, sections_of(route), sections_of(route).len() as int) implies points(
                self,
                a,
            ) by {
                assert(r_blocked.jump(a.start.via) == r0.jump(a.start.via));
                assert(r_blocked.jump(a.end.via) == r0.jump(a.end.via));
                assert(points(&r_blocked, a));
            }
        }
        true
    }

    /// Searches and commits a route for one connection and counts the outcome in the
    /// layout.
    pub fn find_complete_route(
        &mut self,
        board: Board,
        layout: &mut Layout,
        nets: &mut Nets,
        start_end_via: StartEndVia,
    ) -> (found: bool)
        requires
            old(self).wf(board),
            old(nets).wf(board),
            board.contains(start_end_via.start),
            board.contains(start_end_via.end),
            settings_fit(board, old(layout).settings),
            old(layout).cost + route_cost_limit(board, old(layout).settings) <= usize::MAX,
            old(layout).n_completed_routes < usize::MAX,
            old(layout).n_failed_routes < usize::MAX,
        ensures
            final(self).wf(board),
            final(nets).wf(board),
            found <==> search_graph(old(self), old(nets), old(layout).settings, start_end_via.start).reachable(
                LayerVia { via: start_end_via.start, is_wire_layer: false },
                LayerVia { via: start_end_via.end, is_wire_layer: false },
            ),
            !found ==> *final(self) == *old(self) && *final(nets) == *old(nets) && *final(layout) == (Layout {
                n_failed_routes: (old(layout).n_failed_routes + 1) as usize,
                ..*old(layout)
            }),
            found ==> committed(
                *old(self),
                *old(nets),
                *old(layout),
                *final(self),
                *final(nets),
                Layout { n_completed_routes: old(layout).n_completed_routes, ..*final(layout) },
                start_end_via,
            ) && final(layout).n_completed_routes == old(layout).n_completed_routes + 1,
            grown(old(self), final(self)),
            nets_grown(board, old(nets), final(nets)),
            final(layout).cost - old(layout).cost <= route_cost_limit(board, old(layout).settings),
            final(layout).cost >= old(layout).cost,
    {
        let route_was_found = self.find_route(board, layout, nets, start_end_via);
        if route_was_found {
            layout.n_completed_routes += 1;
        } else {
            layout.n_failed_routes += 1;
        }
        route_was_found
    }

    /// Takes every cell of the wire layer inside the box `b`.
    fn block_box(&mut self, board: Board, b: StartEndVia)
        requires
            old(self).wf(board),
            b.start.x <= b.end.x && b.start.y <= b.end.y ==> b.end.x < board.w && b.end.y < board.h,
        ensures
            final(self).wf(board),
            final(self).all_pin_set == old(self).all_pin_set,
            forall|v: Via|
                board.contains(v) ==> (#[trigger] final(self).blocked(v) <==> old(self).blocked(v) || box_holds(
                    b,
                    v,
                )),
            forall|v: Via| board.contains(v) ==> #[trigger] final(self).jump(v) == old(self).jump(v),
            forall|v: Via| board.contains(v) ==> #[trigger] final(self).is_pin(v) == old(self).is_pin(v),
    {
        if b.start.x > b.end.x || b.start.y > b.end.y {
            return ;
        }
        let mut y: usize = b.start.y;
        while y <= b.end.y
            invariant
                b.start.x <= b.end.x < board.w,
                b.start.y <= y <= b.end.y + 1,
                b.end.y < board.h,
                self.wf(board),
                self.all_pin_set == old(self).all_pin_set,
                forall|v: Via|
                    board.contains(v) ==> (#[trigger] self.blocked(v) <==> old(self).blocked(v) || (box_holds(
                        b,
                        v,
                    ) && v.y < y)),
                forall|v: Via| board.contains(v) ==> #[trigger] self.jump(v) == old(self).jump(v),
                forall|v: Via| board.contains(v) ==> #[trigger] self.is_pin(v) == old(self).is_pin(v),
            decreases b.end.y + 1 - y,
        {
            let mut x: usize = b.start.x;
            while x <= b.end.x
                invariant
                    b.start.x <= x <= b.end.x + 1,
                    b.end.x < board.w,
                    b.start.y <= y <= b.end.y < board.h,
                    self.wf(board),
                    self.all_pin_set == old(self).all_pin_set,
                    forall|v: Via|
                        board.contains(v) ==> (#[trigger] self.blocked(v) <==> old(self).blocked(v) || (
                        box_holds(b, v) && (v.y < y || (v.y == y && v.x < x)))),
                    forall|v: Via| board.contains(v) ==> #[trigger] self.jump(v) == old(self).jump(v),
                    forall|v: Via| board.contains(v) ==> #[trigger] self.is_pin(v) == old(self).is_pin(v),
                decreases b.end.x + 1 - x,
            {
                let ghost before = *self;
                self.block(board, Via::new(x, y));
                proof {
                    assert forall|v: Via| board.contains(v) implies (#[trigger] self.blocked(v) <==> old(self).blocked(v) || (box_holds(b, v) && (v.y < y || (v.y == y && v.x < x + 1)))) by {
                        assert(before.blocked(v) <==> old(self).blocked(v) || (box_holds(b, v) && (v.y < y || (
                        v.y == y && v.x < x))));
                    }
                    assert forall|v: Via| board.contains(v) implies #[trigger] self.jump(v) == old(self).jump(
                        v,
                    ) by {
                        assert(before.jump(v) == old(self).jump(v));
                    }
                    assert forall|v: Via| board.contains(v) implies #[trigger] self.is_pin(v) == old(self).is_pin(v) by {
                        assert(before.is_pin(v) == old(self).is_pin(v));
                    }
                }
                x += 1;
            }
            y += 1;
        }
    }

    /// Takes, on the wire layer, every cell of the footprint of every component, so that
    /// no jumper crosses the body of a component.
    pub fn block_component_footprints(&mut self, board: Board, layout: &Layout)
        requires
            old(self).wf(board),
            layout.circuit.wf(board),
        ensures
            final(self).wf(board),
            final(self).all_pin_set == old(self).all_pin_set,
            forall|v: Via|
                board.contains(v) ==> (#[trigger] final(self).blocked(v) <==> old(self).blocked(v)
                    || in_footprints(
                    &layout.circuit,
                    layout.circuit.component_name_to_component_map@.len() as int,
                    v,
                )),
            forall|v: Via| board.contains(v) ==> #[trigger] final(self).jump(v) == old(self).jump(v),
            forall|v: Via| board.contains(v) ==> #[trigger] final(self).is_pin(v) == old(self).is_pin(v),
    {
        let n = layout.circuit.component_name_to_component_map.len();
        let mut c: usize = 0;
        while c < n
            invariant
                c <= n,
                n == layout.circuit.component_name_to_component_map@.len(),
                self.wf(board),
                layout.circuit.wf(board),
                self.all_pin_set == old(self).all_pin_set,
                forall|v: Via|
                    board.contains(v) ==> (#[trigger] self.blocked(v) <==> old(self).blocked(v) || in_footprints(
                        &layout.circuit,
                        c as int,
                        v,
                    )),
                forall|v: Via| board.contains(v) ==> #[trigger] self.jump(v) == old(self).jump(v),
                forall|v: Via| board.contains(v) ==> #[trigger] self.is_pin(v) == old(self).is_pin(v),
            decreases n - c,
        {
            let footprint = layout.circuit.footprint_at(board, c);
            let ghost before = *self;
            let ghost pins = pins_of(&layout.circuit, c as int);
            proof {
                if footprint.start.x <= footprint.end.x && footprint.start.y <= footprint.end.y {
                    assert(pins.len() > 0);
                    let (a1, a2, a3, a4) = choose|a1: int, a2: int, a3: int, a4: int|
                        box_touched(footprint, pins, a1, a2, a3, a4);
                    assert(layout.circuit.component_fits(board, c as int));
                    assert(board.contains(layout.circuit.pin_via(c as int, a3)));
                    assert(board.contains(layout.circuit.pin_via(c as int, a4)));
                }
            }
            self.block_box(board, footprint);
            proof {
                assert forall|v: Via| board.contains(v) implies (#[trigger] self.blocked(v) <==> old(self).blocked(v) || in_footprints(&layout.circuit, c + 1, v)) by {
                    assert(before.blocked(v) <==> old(self).blocked(v) || in_footprints(
                        &layout.circuit,
                        c as int,
                        v,
                    ));
                    if box_holds(footprint, v) {
                        assert(in_footprint(&layout.circuit, c as int, v));
                    }
                    if in_footprints(&layout.circuit, c + 1, v) {
                        let c0 = choose|c0: int| 0 <= c0 < c + 1 && in_footprint(&layout.circuit, c0, v);
                        if c0 == c {
                            let b2 = choose|b2: StartEndVia|
                                is_bounding_box(b2, pins_of(&layout.circuit, c as int)) && box_holds(b2, v);
                            lemma_bounding_box_unique(footprint, b2, pins);
                        } else {
                            assert(in_footprints(&layout.circuit, c as int, v));
                        }
                    }
                    if in_footprints(&layout.circuit, c as int, v) {
                        let c0 = choose|c0: int| 0 <= c0 < c && in_footprint(&layout.circuit, c0, v);
                        assert(0 <= c0 < c + 1 && in_footprint(&layout.circuit, c0, v));
                    }
                }
                assert forall|v: Via| board.contains(v) implies #[trigger] self.jump(v) == old(self).jump(v) by {
                    assert(before.jump(v) == old(self).jump(v));
                }
                assert forall|v: Via| board.contains(v) implies #[trigger] self.is_pin(v) == old(self).is_pin(
                    v,
                ) by {
                    assert(before.is_pin(v) == old(self).is_pin(v));
                }
            }
            c += 1;
        }
    }

    /// Connects, in the nets, the two ends of every connection of the circuit, so that a
    /// search takes the partner of a pin for one of its own net even before a route joins
    /// them.
    pub fn join_all_connections(&self, board: Board, layout: &Layout, nets: &mut Nets)
        requires
            old(nets).wf(board),
            layout.circuit.wf(board),
        ensures
            final(nets).wf(board),
            (final(nets).set_idx_vec@, final(nets).via_set_vec@.len() as int) == join_idx(
                board,
                old(nets).set_idx_vec@,
                old(nets).via_set_vec@.len() as int,
                &layout.circuit,
                layout.circuit.connection_vec@.len() as int,
            ),
            all_joined(board, final(nets), &layout.circuit, layout.circuit.connection_vec@.len() as int),
            nets_grown(board, old(nets), final(nets)),
    {
        let vias = layout.circuit.gen_connection_via_vec(board);
        let n = vias.len();
        let mut i: usize = 0;
        while i < n
            invariant
                i <= n,
                n == vias@.len(),
                n == layout.circuit.connection_vec@.len(),
                nets.wf(board),
                forall|j: int| 0 <= j < n ==> #[trigger] vias@[j] == layout.circuit.connection_vias(j),
                forall|j: int|
                    0 <= j < n ==> board.contains((#[trigger] vias@[j]).start) && board.contains(vias@[j].end),
                (nets.set_idx_vec@, nets.via_set_vec@.len() as int) == join_idx(
                    board,
                    old(nets).set_idx_vec@,
                    old(nets).via_set_vec@.len() as int,
                    &layout.circuit,
                    i as int,
                ),
                all_joined(board, nets, &layout.circuit, i as int),
                nets_grown(board, old(nets), nets),
            decreases n - i,
        {
            let c = vias[i];
            let ghost before = *nets;
            nets.connect(board, c.start, c.end);
            proof {
                assert forall|j: int| 0 <= j < i + 1 implies nets.connected(
                    board,
                    (#[trigger] layout.circuit.connection_vias(j)).start,
                    layout.circuit.connection_vias(j).end,
                ) by {
                    let cj = layout.circuit.connection_vias(j);
                    assert(vias@[j] == cj);
                    if j < i {
                        assert(before.connected(board, cj.start, cj.end));
                    }
                }
                assert forall|u: Via, v: Via|
                    board.contains(u) && board.contains(v) && old(nets).connected(
                        board,
                        u,
                        v,
                    ) implies #[trigger] nets.connected(board, u, v) by {
                    assert(before.connected(board, u, v));
                }
                assert forall|v: Via| board.contains(v) && old(nets).has(board, v) implies #[trigger] nets.has(
                    board,
                    v,
                ) by {
                    assert(before.has(board, v));
                }
            }
            i += 1;
        }
    }

    /// Marks the cell of `via` as holding a pin in use.
    fn set_pin(&mut self, board: Board, via: Via)
        requires
            old(self).wf(board),
            board.contains(via),
        ensures
            final(self).wf(board),
            final(self).via_trace_vec == old(self).via_trace_vec,
            forall|v: Via|
                board.contains(v) ==> (#[trigger] final(self).is_pin(v) <==> old(self).is_pin(v) || v == via),
    {
        let i = board.idx(via);
        self.all_pin_set[i] = true;
        proof {
            assert forall|v: Via| board.contains(v) implies (#[trigger] self.is_pin(v) <==> old(self).is_pin(v)
                || v == via) by {
                board.lemma_idx(v);
                if board.spec_idx(v) == board.spec_idx(via) {
                    board.lemma_idx_injective(v, via);
                }
            }
        }
    }

    /// Records every pin in use of every component, and gives each a net of its own
    /// unless it belongs to one already, so that a search recognises it as taken.
    pub fn register_active_component_pins(&mut self, board: Board, layout: &Layout, nets: &mut Nets)
        requires
            old(self).wf(board),
            old(nets).wf(board),
            layout.circuit.wf(board),
        ensures
            final(self).wf(board),
            final(nets).wf(board),
            final(self).via_trace_vec == old(self).via_trace_vec,
            forall|v: Via|
                board.contains(v) ==> (#[trigger] final(self).is_pin(v) <==> old(self).is_pin(v)
                    || has_active_pin(
                    &layout.circuit,
                    layout.circuit.component_name_to_component_map@.len() as int,
                    v,
                )),
            forall|v: Via|
                board.contains(v) ==> (#[trigger] final(nets).has(board, v) <==> old(nets).has(board, v)
                    || has_active_pin(
                    &layout.circuit,
                    layout.circuit.component_name_to_component_map@.len() as int,
                    v,
                )),
            forall|u: Via, v: Via|
                board.contains(u) && board.contains(v) ==> (#[trigger] final(nets).connected(board, u, v)
                    <==> old(nets).connected(board, u, v) || (u == v && has_active_pin(
                    &layout.circuit,
                    layout.circuit.component_name_to_component_map@.len() as int,
                    v,
                ))),
    {
        let n = layout.circuit.component_name_to_component_map.len();
        let mut c: usize = 0;
        while c < n
            invariant
                c <= n,
                n == layout.circuit.component_name_to_component_map@.len(),
                self.wf(board),
                nets.wf(board),
                layout.circuit.wf(board),
                self.via_trace_vec == old(self).via_trace_vec,
                forall|v: Via|
                    board.contains(v) ==> (#[trigger] self.is_pin(v) <==> old(self).is_pin(v) || has_active_pin(
                        &layout.circuit,
                        c as int,
                        v,
                    )),
                forall|v: Via|
                    board.contains(v) ==> (#[trigger] nets.has(board, v) <==> old(nets).has(board, v)
                        || has_active_pin(&layout.circuit, c as int, v)),
                forall|u: Via, v: Via|
                    board.contains(u) && board.contains(v) ==> (#[trigger] nets.connected(board, u, v) <==> old(nets).connected(board, u, v) || (u == v && has_active_pin(&layout.circuit, c as int, v))),
            decreases n - c,
        {
            self.register_pins_of(board, layout, nets, c);
            c += 1;
        }
    }

    /// Records the pins in use of the component at place `c`.
    fn register_pins_of(&mut self, board: Board, layout: &Layout, nets: &mut Nets, c: usize)
        requires
            old(self).wf(board),
            old(nets).wf(board),
            layout.circuit.wf(board),
            c < layout.circuit.component_name_to_component_map@.len(),
        ensures
            final(self).wf(board),
            final(nets).wf(board),
            final(self).via_trace_vec == old(self).via_trace_vec,
            forall|v: Via|
                board.contains(v) ==> (#[trigger] final(self).is_pin(v) <==> old(self).is_pin(v) || exists|
                    p: int,
                | is_active_pin(&layout.circuit, c as int, p, v)),
            forall|v: Via|
                board.contains(v) ==> (#[trigger] final(nets).has(board, v) <==> old(nets).has(board, v)
                    || exists|p: int| is_active_pin(&layout.circuit, c as int, p, v)),
            forall|u: Via, v: Via|
                board.contains(u) && board.contains(v) ==> (#[trigger] final(nets).connected(board, u, v)
                    <==> old(nets).connected(board, u, v) || (u == v && exists|p: int|
                    is_active_pin(&layout.circuit, c as int, p, v))),
    {
        let pin_via_vec = layout.circuit.component_pins_at(board, c);
        let component = &layout.circuit.component_name_to_component_map[c].1;
        let n = pin_via_vec.len();
        let mut pin_idx: usize = 0;
        while pin_idx < n
            invariant
                pin_idx <= n,
                n == pin_via_vec@.len(),
                n == layout.circuit.pin_offsets(c as int).len(),
                c < layout.circuit.component_name_to_component_map@.len(),
                component == layout.circuit.component_name_to_component_map@[c as int].1,
                forall|p: int| 0 <= p < n ==> #[trigger] pin_via_vec@[p] == layout.circuit.pin_via(c as int, p),
                forall|p: int| 0 <= p < n ==> board.contains(#[trigger] pin_via_vec@[p]),
                self.wf(board),
                nets.wf(board),
                self.via_trace_vec == old(self).via_trace_vec,
                forall|v: Via|
                    board.contains(v) ==> (#[trigger] self.is_pin(v) <==> old(self).is_pin(v) || exists|p: int|
                        p < pin_idx && is_active_pin(&layout.circuit, c as int, p, v)),
                forall|v: Via|
                    board.contains(v) ==> (#[trigger] nets.has(board, v) <==> old(nets).has(board, v) || exists|
                        p: int,
                    | p < pin_idx && is_active_pin(&layout.circuit, c as int, p, v)),
                forall|u: Via, v: Via|
                    board.contains(u) && board.contains(v) ==> (#[trigger] nets.connected(board, u, v) <==> old(nets).connected(board, u, v) || (u == v && exists|p: int|
                        p < pin_idx && is_active_pin(&layout.circuit, c as int, p, v))),
            decreases n - pin_idx,
        {
            let via = pin_via_vec[pin_idx];
            let ghost r_before = *self;
            let ghost n_before = *nets;
            let active = !component.is_dont_care(pin_idx);
            if active {
                self.set_pin(board, via);
                nets.register_pin(board, via);
            }
            proof {
                let circuit = &layout.circuit;
                assert(active == is_active_pin(circuit, c as int, pin_idx as int, via));
                assert forall|v: Via| board.contains(v) implies ((exists|p: int|
                    p < pin_idx + 1 && is_active_pin(circuit, c as int, p, v)) <==> (exists|p: int|
                    p < pin_idx && is_active_pin(circuit, c as int, p, v)) || (active && v == via)) by {
                    if exists|p: int| p < pin_idx + 1 && is_active_pin(circuit, c as int, p, v) {
                        let p = choose|p: int| p < pin_idx + 1 && is_active_pin(circuit, c as int, p, v);
                        if p < pin_idx {
                            assert(p < pin_idx && is_active_pin(circuit, c as int, p, v));
                        }
                    }
                    if exists|p: int| p < pin_idx && is_active_pin(circuit, c as int, p, v) {
                        let p = choose|p: int| p < pin_idx && is_active_pin(circuit, c as int, p, v);
                        assert(p < pin_idx + 1 && is_active_pin(circuit, c as int, p, v));
                    }
                    if active && v == via {
                        assert(pin_idx < pin_idx + 1 && is_active_pin(circuit, c as int, pin_idx as int, v));
                    }
                }
                assert forall|v: Via| board.contains(v) implies (#[trigger] self.is_pin(v) <==> old(self).is_pin(v) || exists|p: int| p < pin_idx + 1 && is_active_pin(circuit, c as int, p, v)) by {
                    assert(r_before.is_pin(v) <==> old(self).is_pin(v) || exists|p: int|
                        p < pin_idx && is_active_pin(circuit, c as int, p, v));
                }
                assert forall|v: Via| board.contains(v) implies (#[trigger] nets.has(board, v) <==> old(nets).has(board, v) || exists|p: int|
                    p < pin_idx + 1 && is_active_pin(circuit, c as int, p, v)) by {
                    assert(n_before.has(board, v) <==> old(nets).has(board, v) || exists|p: int|
                        p < pin_idx && is_active_pin(circuit, c as int, p, v));
                }
                assert forall|u: Via, v: Via| board.contains(u) && board.contains(v) implies (
                #[trigger] nets.connected(board, u, v) <==> old(nets).connected(board, u, v) || (u == v
                    && exists|p: int| p < pin_idx + 1 && is_active_pin(circuit, c as int, p, v))) by {
                    assert(n_before.connected(board, u, v) <==> old(nets).connected(board, u, v) || (u == v
                        && exists|p: int| p < pin_idx && is_active_pin(circuit, c as int, p, v)));
                }
            }
            pin_idx += 1;
        }
        proof {
            let circuit = &layout.circuit;
            assert forall|v: Via| board.contains(v) implies ((exists|p: int|
                p < n && is_active_pin(circuit, c as int, p, v)) <==> (exists|p: int|
                is_active_pin(circuit, c as int, p, v))) by {
                if exists|p: int| is_active_pin(circuit, c as int, p, v) {
                    let p = choose|p: int| is_active_pin(circuit, c as int, p, v);
                    assert(p < n && is_active_pin(circuit, c as int, p, v));
                }
            }
        }
    }

    /// Takes the next step of a routing attempt, given what the poll of the stop flag
    /// returned. Where the flag was seen raised, nothing is tried and nothing changes.
    /// Else the connection `connection_idx`, whose ends are `start_end_via`, is tried: see
    /// [`tried`]. Returns whether the attempt is aborted.
    pub fn route_next(
        &mut self,
        board: Board,
        layout: &mut Layout,
        nets: &mut Nets,
        start_end_via: StartEndVia,
        connection_idx: usize,
        stopped: bool,
    ) -> (aborted: bool)
        requires
            old(self).wf(board),
            old(nets).wf(board),
            board.contains(start_end_via.start),
            board.contains(start_end_via.end),
            settings_fit(board, old(layout).settings),
            old(layout).cost + route_cost_limit(board, old(layout).settings) <= usize::MAX,
            old(layout).n_completed_routes < usize::MAX,
            old(layout).n_failed_routes < usize::MAX,
            connection_idx < old(layout).route_status_vec@.len(),
        ensures
            aborted == stopped,
            stopped ==> *final(self) == *old(self) && *final(nets) == *old(nets) && *final(layout) == *old(layout),
            !stopped ==> tried(
                *old(self),
                *old(nets),
                *old(layout),
                *final(self),
                *final(nets),
                *final(layout),
                start_end_via,
                connection_idx as int,
            ),
            final(self).wf(board),
            final(nets).wf(board),
            grown(old(self), final(self)),
            nets_grown(board, old(nets), final(nets)),
            final(layout).cost - old(layout).cost <= route_cost_limit(board, old(layout).settings),
            final(layout).cost >= old(layout).cost,
    {
        if stopped {
            proof {
                let limit = route_cost_limit(board, layout.settings);
                assert(limit >= 0) by (nonlinear_arith)
                    requires
                        limit == 2 * board.spec_size() * layout.settings.spec_max_step_cost(),
                        board.spec_size() >= 0,
                        layout.settings.spec_max_step_cost() >= 0,
                ;
            }
            return true;
        }
        let ghost l0 = *layout;
        let route_was_found = self.find_complete_route(board, layout, nets, start_end_via);
        let ghost l_found = *layout;
        layout.route_status_vec[connection_idx] = route_was_found;
        proof {
            if route_was_found {
                assert((Layout {
                    n_completed_routes: l0.n_completed_routes,
                    route_status_vec: l0.route_status_vec,
                    ..*layout
                }) == (Layout { n_completed_routes: l0.n_completed_routes, ..l_found }));
            }
        }
        false
    }

    /// Tries the connections in the order given, one after the other, and commits each
    /// route that is found. Before each connection the stop flag is polled, and
    /// [`Router::route_next`] takes the step with what the poll returned: once the flag is
    /// seen raised, the rest is left untried. Returns whether that happened.
    pub fn route_all(
        &mut self,
        board: Board,
        layout: &mut Layout,
        nets: &mut Nets,
        connection_idx_vec: &Vec<usize>,
        stop: &ThreadStop,
    ) -> (is_aborted: bool)
        requires
            old(self).wf(board),
            old(nets).wf(board),
            old(layout).circuit.wf(board),
            settings_fit(board, old(layout).settings),
            forall|k: int|
                0 <= k < connection_idx_vec@.len() ==> (#[trigger] connection_idx_vec@[k]) < old(layout).circuit.connection_vec@.len(),
            old(layout).cost + connection_idx_vec@.len() * route_cost_limit(board, old(layout).settings)
                <= usize::MAX,
            old(layout).n_completed_routes + connection_idx_vec@.len() <= usize::MAX,
            old(layout).n_failed_routes + connection_idx_vec@.len() <= usize::MAX,
        ensures
            final(self).wf(board),
            final(nets).wf(board),
            grown(old(self), final(self)),
            nets_grown(board, old(nets), final(nets)),
            same_input(*old(layout), *final(layout)),
            final(layout).route_status_vec@.len() == old(layout).circuit.connection_vec@.len(),
            final(layout).n_completed_routes >= old(layout).n_completed_routes,
            final(layout).n_failed_routes >= old(layout).n_failed_routes,
            attempts(*old(layout), *final(layout)) <= connection_idx_vec@.len(),
            !is_aborted ==> attempts(*old(layout), *final(layout)) == connection_idx_vec@.len(),
            is_aborted ==> attempts(*old(layout), *final(layout)) < connection_idx_vec@.len(),
            routes_added(
                *old(layout),
                *final(layout),
                final(layout).n_completed_routes - old(layout).n_completed_routes,
            ),
            routes_ok(old(self), old(layout).route_vec@, 0) ==> routes_ok(final(self), final(layout).route_vec@, 0),
            routes_ok(final(self), final(layout).route_vec@, old(layout).route_vec@.len() as int),
            jumps_ok(final(self), final(layout).route_vec@, old(layout).route_vec@.len() as int),
            old(layout).cost <= final(layout).cost,
            final(layout).n_completed_routes == old(layout).n_completed_routes ==> final(layout).cost == old(layout).cost,
            final(layout).cost - old(layout).cost <= attempts(*old(layout), *final(layout)) * route_cost_limit(
                board,
                old(layout).settings,
            ),
            forall|c: int|
                0 <= c < final(layout).route_status_vec@.len() && (forall|k: int|
                    0 <= k < attempts(*old(layout), *final(layout)) ==> connection_idx_vec@[k] != c)
                    ==> #[trigger] final(layout).route_status_vec@[c] == (c < old(layout).route_status_vec@.len()
                    && old(layout).route_status_vec@[c]),
            exists|ls: Layout|
                with_statuses(*old(layout), ls) && #[trigger] tried_in_order(
                    *old(self),
                    *old(nets),
                    ls,
                    *final(self),
                    *final(nets),
                    *final(layout),
                    connection_ends(&old(layout).circuit),
                    connection_idx_vec@,
                    attempts(*old(layout), *final(layout)),
                ),
    {
        let mut is_aborted = false;
        let connection_via_vec = layout.circuit.gen_connection_via_vec(board);
        resize_status(&mut layout.route_status_vec, connection_via_vec.len());
        let ghost ls = *layout;
        let ghost vias = connection_ends(&old(layout).circuit);
        proof {
            assert(connection_via_vec@ =~= vias);
            assert(with_statuses(*old(layout), ls));
        }
        let ghost l0 = *old(layout);
        let ghost limit = route_cost_limit(board, l0.settings);
        let n = connection_idx_vec.len();
        let mut i: usize = 0;
        proof {
            assert(limit >= 0) by (nonlinear_arith)
                requires
                    limit == 2 * board.spec_size() * l0.settings.spec_max_step_cost(),
                    board.spec_size() >= 0,
                    l0.settings.spec_max_step_cost() >= 0,
            ;
            assert(0 * limit == 0) by (nonlinear_arith);
        }
        while i < n && !is_aborted
            invariant
                i <= n,
                n == connection_idx_vec@.len(),
                self.wf(board),
                nets.wf(board),
                limit == route_cost_limit(board, l0.settings),
                limit >= 0,
                settings_fit(board, l0.settings),
                l0.circuit.wf(board),
                l0 == *old(layout),
                forall|k: int|
                    0 <= k < connection_idx_vec@.len() ==> (#[trigger] connection_idx_vec@[k])
                        < l0.circuit.connection_vec@.len(),
                l0.cost + n * limit <= usize::MAX,
                l0.n_completed_routes + n <= usize::MAX,
                l0.n_failed_routes + n <= usize::MAX,
                connection_via_vec@.len() == l0.circuit.connection_vec@.len(),
                forall|j: int|
                    0 <= j < connection_via_vec@.len() ==> board.contains((#[trigger] connection_via_vec@[j]).start)
                        && board.contains(connection_via_vec@[j].end),
                grown(old(self), self),
                nets_grown(board, old(nets), nets),
                same_input(l0, *layout),
                layout.route_status_vec@.len() == l0.circuit.connection_vec@.len(),
                layout.n_completed_routes >= l0.n_completed_routes,
                layout.n_failed_routes >= l0.n_failed_routes,
                attempts(l0, *layout) == i,
                is_aborted ==> i < n,
                routes_added(l0, *layout, layout.n_completed_routes - l0.n_completed_routes),
                routes_ok(old(self), l0.route_vec@, 0) ==> routes_ok(self, layout.route_vec@, 0),
                routes_ok(self, layout.route_vec@, l0.route_vec@.len() as int),
                jumps_ok(self, layout.route_vec@, l0.route_vec@.len() as int),
                l0.cost <= layout.cost,
                layout.n_completed_routes == l0.n_completed_routes ==> layout.cost == l0.cost,
                layout.cost - l0.cost <= i * limit,
                vias == connection_via_vec@,
                tried_in_order(*old(self), *old(nets), ls, *self, *nets, *layout, vias, connection_idx_vec@, i as int),
                forall|c: int|
                    0 <= c < layout.route_status_vec@.len() && (forall|k: int|
                        0 <= k < i ==> connection_idx_vec@[k] != c) ==> #[trigger] layout.route_status_vec@[c] == (
                    c < l0.route_status_vec@.len() && l0.route_status_vec@[c]),
            decreases n - i + (if is_aborted { 0int } else { 1int }),
        {
            let connection_idx = connection_idx_vec[i];
            let start_end_via = connection_via_vec[connection_idx];
            let ghost r1 = *self;
            let ghost n1 = *nets;
            let ghost l1 = *layout;
            proof {
                assert((i + 1) * limit == i * limit + limit) by (nonlinear_arith);
                assert((i + 1) * limit <= n * limit) by (nonlinear_arith)
                    requires
                        i + 1 <= n,
                        limit >= 0,
                ;
            }
            is_aborted = self.route_next(board, layout, nets, start_end_via, connection_idx, stop.is_stopped());
            if !is_aborted {
                proof {
                    let found = search_graph(&r1, &n1, l1.settings, start_end_via.start).reachable(
                        LayerVia { via: start_end_via.start, is_wire_layer: false },
                        LayerVia { via: start_end_via.end, is_wire_layer: false },
                    );
                    let l_found = Layout { route_status_vec: l1.route_status_vec, ..*layout };
                    assert(tried(r1, n1, l1, *self, *nets, *layout, start_end_via, connection_idx as int));
                    if found {
                        assert((Layout { n_completed_routes: l1.n_completed_routes, ..l_found }) == (Layout {
                            n_completed_routes: l1.n_completed_routes,
                            route_status_vec: l1.route_status_vec,
                            ..*layout
                        }));
                        assert(committed(
                            r1,
                            n1,
                            l1,
                            *self,
                            *nets,
                            Layout { n_completed_routes: l1.n_completed_routes, ..l_found },
                            start_end_via,
                        ));
                    }
                    lemma_jumps_ok_step(r1, l1, *self, *layout, l_found, l0.route_vec@.len() as int, found);
                    assert(vias[connection_idx_vec@[i as int] as int] == start_end_via);
                    assert(tried_in_order(*old(self), *old(nets), ls, r1, n1, l1, vias, connection_idx_vec@, i as int));
                    assert(tried(
                        r1,
                        n1,
                        l1,
                        *self,
                        *nets,
                        *layout,
                        vias[connection_idx_vec@[(i + 1) - 1] as int],
                        connection_idx_vec@[(i + 1) - 1] as int,
                    ));
                    assert(tried_in_order(
                        *old(self),
                        *old(nets),
                        ls,
                        *self,
                        *nets,
                        *layout,
                        vias,
                        connection_idx_vec@,
                        i + 1,
                    ));
                    lemma_routes_ok_grown(&r1, self, l1.route_vec@, l0.route_vec@.len() as int);
                    if routes_ok(old(self), l0.route_vec@, 0) {
                        lemma_routes_ok_grown(&r1, self, l1.route_vec@, 0);
                    }
                    assert forall|r: int| 0 <= r < layout.route_vec@.len() && (l0.route_vec@.len() <= r
                        || routes_ok(old(self), l0.route_vec@, 0)) implies committed_ok(
                        self,
                        (#[trigger] layout.route_vec@[r])@,
                    ) by {
                        if r < l1.route_vec@.len() {
                            assert(layout.route_vec@[r] == l1.route_vec@[r]);
                            assert(committed_ok(self, l1.route_vec@[r]@));
                        }
                    }
                    assert forall|r: int| 0 <= r < l0.route_vec@.len() implies #[trigger] layout.route_vec@[r]
                        == l0.route_vec@[r] by {
                        assert(l1.route_vec@[r] == l0.route_vec@[r]);
                    }
                    assert forall|u: Via, v: Via|
                        board.contains(u) && board.contains(v) && old(nets).connected(
                            board,
                            u,
                            v,
                        ) implies #[trigger] nets.connected(board, u, v) by {}
                    assert forall|c: int|
                        0 <= c < layout.route_status_vec@.len() && (forall|k: int|
                            0 <= k < i + 1 ==> connection_idx_vec@[k] != c) implies #[trigger] layout.route_status_vec@[c]
                        == (c < l0.route_status_vec@.len() && l0.route_status_vec@[c]) by {
                        assert(connection_idx_vec@[i as int] != c);
                        assert(layout.route_status_vec@[c] == l1.route_status_vec@[c]);
                        assert forall|k: int| 0 <= k < i implies connection_idx_vec@[k] != c by {}
                    }
                }
                i += 1;
            }
        }
        is_aborted
    }

    /// Routes the circuit of the layout, trying its connections in the order given. The
    /// wire layer over the components is taken, the two ends of every connection are
    /// connected in the nets and the pins in use are recorded; then each connection is
    /// tried in turn; then the cuts are derived and their cost is added. The layout
    /// receives the routes, the cuts, the cost and counts, and the nets as they stand at
    /// the end. Returns whether the stop flag ended the attempt early.
    pub fn route(
        &mut self,
        board: Board,
        layout: &mut Layout,
        nets: &mut Nets,
        connection_idx_vec: &Vec<usize>,
        stop: &ThreadStop,
    ) -> (is_aborted: bool)
        requires
            can_route(*old(self), *old(nets), *old(layout), board, connection_idx_vec@),
        ensures
            final(self).wf(board),
            final(nets).wf(board),
            routed(*old(self), *old(nets), *old(layout), *final(self), *final(nets), *final(layout)),
            routed_in_order(
                *old(self),
                *old(nets),
                *old(layout),
                *final(self),
                *final(nets),
                *final(layout),
                connection_idx_vec@,
                attempts(*old(layout), *final(layout)),
            ),
            attempts(*old(layout), *final(layout)) <= connection_idx_vec@.len(),
            !is_aborted ==> attempts(*old(layout), *final(layout)) == connection_idx_vec@.len(),
            is_aborted ==> attempts(*old(layout), *final(layout)) < connection_idx_vec@.len(),
            final(layout).cost - old(layout).cost - old(layout).settings.cut_cost * final(layout).strip_cut_vec@.len() <= attempts(*old(layout), *final(layout)) * route_cost_limit(
                board,
                old(layout).settings,
            ),
            forall|c: int|
                0 <= c < final(layout).route_status_vec@.len() && (forall|k: int|
                    0 <= k < attempts(*old(layout), *final(layout)) ==> connection_idx_vec@[k] != c)
                    ==> #[trigger] final(layout).route_status_vec@[c] == (c < old(layout).route_status_vec@.len()
                    && old(layout).route_status_vec@[c]),
    {
        let ghost l0 = *layout;
        let ghost n0 = *nets;
        self.block_component_footprints(board, layout);
        let ghost r_blocked = *self;
        self.join_all_connections(board, layout, nets);
        let ghost n_joined = *nets;
        self.register_active_component_pins(board, layout, nets);
        let ghost r_ready = *self;
        let ghost n_ready = *nets;
        proof {
            let limit = route_cost_limit(board, l0.settings);
            assert(limit >= 0) by (nonlinear_arith)
                requires
                    limit == 2 * board.spec_size() * l0.settings.spec_max_step_cost(),
                    board.spec_size() >= 0,
                    l0.settings.spec_max_step_cost() >= 0,
            ;
            assert(board.spec_size() * l0.settings.cut_cost >= 0) by (nonlinear_arith)
                requires
                    board.spec_size() >= 0,
            ;
            assert forall|v: Via| board.contains(v) implies (r_ready.blocked(v) == r_blocked.blocked(v)) by {
                board.lemma_idx(v);
            }
            assert forall|v: Via| board.contains(v) implies (r_ready.jump(v) == old(self).jump(v)) by {
                board.lemma_idx(v);
                assert(r_blocked.jump(v) == old(self).jump(v));
            }
        }
        proof {
            assert(joined(n0, n_joined, board, &l0.circuit));
            assert(set_up(*old(self), n0, &l0.circuit, r_ready, n_ready));
        }
        let is_aborted = self.route_all(board, layout, nets, connection_idx_vec, stop);
        let ghost l_routed = *layout;
        let ghost ls = choose|ls: Layout|
            with_statuses(l0, ls) && #[trigger] tried_in_order(
                r_ready,
                n_ready,
                ls,
                *self,
                *nets,
                l_routed,
                connection_ends(&l0.circuit),
                connection_idx_vec@,
                attempts(l0, l_routed),
            );
        let strip_cut_vec = self.find_strip_cuts(board, nets);
        proof {
            lemma_cuts_fit(board, strip_cut_vec@);
            let done = attempts(l0, l_routed);
            let limit = route_cost_limit(board, l0.settings);
            assert(done * limit <= connection_idx_vec@.len() * limit) by (nonlinear_arith)
                requires
                    done <= connection_idx_vec@.len(),
                    limit >= 0,
            ;
            assert(l0.settings.cut_cost * strip_cut_vec@.len() <= board.spec_size() * l0.settings.cut_cost)
                by (nonlinear_arith)
                requires
                    0 <= strip_cut_vec@.len() <= board.spec_size(),
            ;
        }
        layout.cost = layout.cost + layout.settings.cut_cost * strip_cut_vec.len();
        layout.strip_cut_vec = strip_cut_vec;
        layout.set_idx_vec = copy_of(&nets.set_idx_vec);
        layout.via_set_vec = copy_sets(&nets.via_set_vec);
        proof {
            assert(finished(l_routed, *layout, *self, *nets));
            assert(attempts(l0, *layout) == attempts(l0, l_routed));
            assert(tried_in_order(
                r_ready,
                n_ready,
                ls,
                *self,
                *nets,
                l_routed,
                connection_ends(&l0.circuit),
                connection_idx_vec@,
                attempts(l0, *layout),
            ));
        }
        proof {
            let r1 = *self;
            let n1 = *nets;
            let circuit = &l0.circuit;
            let nc = circuit.connection_vec@.len() as int;
            assert forall|i: int| 0 <= i < nc implies n1.connected(
                board,
                (#[trigger] circuit.connection_vias(i)).start,
                circuit.connection_vias(i).end,
            ) by {
                let c = circuit.connection_vias(i);
                assert(circuit.point_ok(circuit.connection_vec@[i].start));
                assert(circuit.point_ok(circuit.connection_vec@[i].end));
                circuit.lemma_point_on_board(board, circuit.connection_vec@[i].start);
                circuit.lemma_point_on_board(board, circuit.connection_vec@[i].end);
                assert(n_joined.connected(board, c.start, c.end));
                assert(n_ready.connected(board, c.start, c.end));
            }
            assert forall|v: Via| board.contains(v) implies (#[trigger] r1.is_pin(v) <==> old(self).is_pin(v)
                || has_active_pin(circuit, circuit.component_name_to_component_map@.len() as int, v)) by {
                board.lemma_idx(v);
                assert(r_ready.is_pin(v) == r1.is_pin(v));
                assert(r_blocked.is_pin(v) == old(self).is_pin(v));
            }
            assert forall|v: Via|
                board.contains(v) && (old(self).blocked(v) || in_footprints(
                    circuit,
                    circuit.component_name_to_component_map@.len() as int,
                    v,
                )) implies #[trigger] r1.blocked(v) by {
                assert(r_blocked.blocked(v));
                assert(r_ready.blocked(v) == r_blocked.blocked(v));
            }
        }
        is_aborted
    }
}

/// The number of connections that were tried between the layouts `a` and `b`.
pub open spec fn attempts(a: Layout, b: Layout) -> int {
    (b.n_completed_routes - a.n_completed_routes) + (b.n_failed_routes - a.n_failed_routes)
}

/// What [`Router::route`] asks of its arguments: the tables of the router and of the nets
/// cover `board`; the circuit is consistent and lies on the board; every step costs
/// something; the order names connections of the circuit only; and the largest cost and
/// the largest counts that can arise fit the machine word.
pub open spec fn can_route(router: Router, nets: Nets, layout: Layout, board: Board, order: Seq<usize>) -> bool {
    &&& router.wf(board)
    &&& nets.wf(board)
    &&& layout.circuit.wf(board)
    &&& settings_fit(board, layout.settings)
    &&& forall|k: int| 0 <= k < order.len() ==> (#[trigger] order[k]) < layout.circuit.connection_vec@.len()
    &&& layout.cost + order.len() * route_cost_limit(board, layout.settings) + board.spec_size()
        * layout.settings.cut_cost <= usize::MAX
    &&& layout.n_completed_routes + order.len() <= usize::MAX
    &&& layout.n_failed_routes + order.len() <= usize::MAX
}

/// What a routing attempt leaves behind. `r0`, `n0` and `l0` are the router, the nets and
/// the layout before the attempt, `r1`, `n1` and `l1` those after it.
pub open spec fn routed(r0: Router, n0: Nets, l0: Layout, r1: Router, n1: Nets, l1: Layout) -> bool {
    let board = r0.board;
    let circuit = &l0.circuit;
    let n_components = circuit.component_name_to_component_map@.len() as int;
    let found = l1.n_completed_routes - l0.n_completed_routes;
    // The input stays as it was.
    &&& l1 == (Layout {
        cost: l1.cost,
        n_completed_routes: l1.n_completed_routes,
        n_failed_routes: l1.n_failed_routes,
        route_vec: l1.route_vec,
        route_status_vec: l1.route_status_vec,
        strip_cut_vec: l1.strip_cut_vec,
        set_idx_vec: l1.set_idx_vec,
        via_set_vec: l1.via_set_vec,
        diag_route_step_vec: l1.diag_route_step_vec,
        diag_start_via: l1.diag_start_via,
        diag_end_via: l1.diag_end_via,
        ..l0
    })
    // One status for each connection, and one route more for each connection routed.
    &&& l1.route_status_vec@.len() == circuit.connection_vec@.len()
    &&& l1.n_completed_routes >= l0.n_completed_routes
    &&& l1.n_failed_routes >= l0.n_failed_routes
    &&& routes_added(l0, l1, found)
    // Every new section is straight, and the wire layer is taken under every new wire section.
    &&& routes_ok(&r1, l1.route_vec@, l0.route_vec@.len() as int)
    // The two ends of every new jumper that no later one has touched point at each other.
    &&& jumps_ok(&r1, l1.route_vec@, l0.route_vec@.len() as int)
    // The two ends of every connection are in one net.
    &&& all_joined(board, &n1, circuit, circuit.connection_vec@.len() as int)
    &&& nets_grown(board, &n0, &n1)
    // The wire layer over the components is taken, and nothing was given back.
    &&& forall|v: Via|
        board.contains(v) && (r0.blocked(v) || in_footprints(circuit, n_components, v)) ==> #[trigger] r1.blocked(v)
    // The pins in use are recorded.
    &&& forall|v: Via|
        board.contains(v) ==> (#[trigger] r1.is_pin(v) <==> r0.is_pin(v) || has_active_pin(
            circuit,
            n_components,
            v,
        ))
    // The cuts are those of the final nets, and their cost is part of the cost.
    &&& lists_cuts(&r1, &n1, l1.strip_cut_vec@)
    &&& l1.cost >= l0.cost + l0.settings.cut_cost * l1.strip_cut_vec@.len()
    &&& (found == 0 ==> l1.cost == l0.cost + l0.settings.cut_cost * l1.strip_cut_vec@.len())
    // The layout holds the nets as they stand.
    &&& l1.set_idx_vec@ == n1.set_idx_vec@
    &&& l1.via_set_vec@.len() == n1.via_set_vec@.len()
    &&& forall|k: int| 0 <= k < l1.via_set_vec@.len() ==> (#[trigger] l1.via_set_vec@[k])@ == n1.via_set_vec@[k]@
}

/// Brings `v` to the length `n`: what is beyond is dropped, what is missing is `false`.
fn resize_status(v: &mut Vec<bool>, n: usize)
    ensures
        final(v)@.len() == n,
        forall|i: int| 0 <= i < n ==> #[trigger] final(v)@[i] == (i < old(v)@.len() && old(v)@[i]),
{
    v.truncate(n);
    while v.len() < n
        invariant
            v@.len() <= n,
            old(v)@.len() <= n ==> v@.len() >= old(v)@.len(),
            old(v)@.len() > n ==> v@.len() == n,
            forall|i: int| 0 <= i < v@.len() ==> #[trigger] v@[i] == (i < old(v)@.len() && old(v)@[i]),
        decreases n - v@.len(),
    {
        v.push(false);
    }
}

/// A copy of `v`, set by set.
pub fn copy_sets(v: &Vec<Vec<Via>>) -> (r: Vec<Vec<Via>>)
    ensures
        r@.len() == v@.len(),
        forall|k: int| 0 <= k < r@.len() ==> (#[trigger] r@[k])@ == v@[k]@,
{
    let mut r: Vec<Vec<Via>> = Vec::new();
    let mut i: usize = 0;
    while i < v.len()
        invariant
            i <= v@.len(),
            r@.len() == i,
            forall|k: int| 0 <= k < i ==> (#[trigger] r@[k])@ == v@[k]@,
        decreases v@.len() - i,
    {
        r.push(copy_of(&v[i]));
        i += 1;
    }
    r
}

/// What [`route_layout`] asks of a layout and an order, so that the layout can be routed
/// on a fresh router and fresh nets for its own board: the board has a size that fits
/// the machine word, and the rest is as [`can_route`] says.
pub open spec fn routable(layout: Layout, order: Seq<usize>) -> bool {
    let board = layout.board;
    &&& board.wf()
    &&& layout.circuit.wf(board)
    &&& settings_fit(board, layout.settings)
    &&& forall|k: int| 0 <= k < order.len() ==> (#[trigger] order[k]) < layout.circuit.connection_vec@.len()
    &&& layout.cost + order.len() * route_cost_limit(board, layout.settings) + board.spec_size()
        * layout.settings.cut_cost <= usize::MAX
    &&& layout.n_completed_routes + order.len() <= usize::MAX
    &&& layout.n_failed_routes + order.len() <= usize::MAX
}

/// The cost that no single route can exceed, where the settings fit the board.
fn cost_limit(board: Board, settings: &Settings) -> (r: Option<usize>)
    requires
        board.wf(),
    ensures
        r.is_some() <==> settings_fit(board, *settings),
        r.is_some() ==> r.unwrap() == route_cost_limit(board, *settings),
{
    if settings.wire_cost < 1 || settings.strip_cost < 1 || settings.via_cost < 1 {
        return None;
    }
    let size = board.size();
    let max = settings.max_step_cost();
    proof {
        assert(2 * size * max == (2 * size) * max) by (nonlinear_arith);
        assert(max >= 1);
        if 2 * size > usize::MAX {
            assert((2 * size) * max > usize::MAX) by (nonlinear_arith)
                requires
                    2 * size > usize::MAX,
                    max >= 1,
            ;
        }
    }
    match size.checked_mul(2) {
        None => None,
        Some(twice) => match twice.checked_mul(max) {
            None => None,
            Some(limit) => if limit < usize::MAX {
                Some(limit)
            } else {
                None
            },
        },
    }
}

/// Whether every number of `order` names a connection.
fn order_is_ok(order: &Vec<usize>, n_connections: usize) -> (ok: bool)
    ensures
        ok == (forall|k: int| 0 <= k < order@.len() ==> (#[trigger] order@[k]) < n_connections),
{
    let mut k: usize = 0;
    while k < order.len()
        invariant
            k <= order@.len(),
            forall|j: int| 0 <= j < k ==> (#[trigger] order@[j]) < n_connections,
        decreases order@.len() - k,
    {
        if order[k] >= n_connections {
            return false;
        }
        k += 1;
    }
    true
}

/// Whether `layout` can be routed in the order `order`.
pub fn is_routable(layout: &Layout, order: &Vec<usize>) -> (ok: bool)
    ensures
        ok == routable(*layout, order@),
{
    let board = layout.board;
    if board.w.checked_mul(board.h).is_none() {
        return false;
    }
    if !layout.circuit.is_valid(board) {
        return false;
    }
    let limit = match cost_limit(board, &layout.settings) {
        None => {
            return false;
        },
        Some(limit) => limit,
    };
    if !order_is_ok(order, layout.circuit.connection_vec.len()) {
        return false;
    }
    if layout.n_completed_routes.checked_add(order.len()).is_none() || layout.n_failed_routes.checked_add(
        order.len(),
    ).is_none() {
        return false;
    }
    let size = board.size();
    proof {
        assert(order@.len() * limit >= 0) by (nonlinear_arith)
            requires
                order@.len() >= 0,
                limit >= 0,
        ;
        assert(size * layout.settings.cut_cost >= 0) by (nonlinear_arith)
            requires
                size >= 0,
                layout.settings.cut_cost >= 0,
        ;
    }
    match order.len().checked_mul(limit) {
        None => false,
        Some(routes) => match size.checked_mul(layout.settings.cut_cost) {
            None => false,
            Some(cuts) => match routes.checked_add(cuts) {
                None => false,
                Some(both) => layout.cost.checked_add(both).is_some(),
            },
        },
    }
}

/// Routes `layout` in the order `order` on a fresh router and fresh nets for its board,
/// if it can be routed: see [`routable`]. Returns whether the stop flag ended the
/// attempt early, or `None`, with the layout as it was, where it cannot be routed.
pub fn route_layout(layout: &mut Layout, order: &Vec<usize>, stop: &ThreadStop) -> (r: Option<bool>)
    ensures
        r.is_some() <==> routable(*old(layout), order@),
        r.is_none() ==> *final(layout) == *old(layout),
        r.is_some() ==> exists|r0: Router, n0: Nets, r1: Router, n1: Nets| #[trigger]
            routed(r0, n0, *old(layout), r1, n1, *final(layout)) && is_fresh_state(r0, n0, old(layout).board)
                && routed_in_order(
                r0,
                n0,
                *old(layout),
                r1,
                n1,
                *final(layout),
                order@,
                attempts(*old(layout), *final(layout)),
            ),
        r.is_some() ==> attempts(*old(layout), *final(layout)) <= order@.len(),
        r == Some(false) ==> attempts(*old(layout), *final(layout)) == order@.len(),
        r == Some(true) ==> attempts(*old(layout), *final(layout)) < order@.len(),
{
    if !is_routable(layout, order) {
        return None;
    }
    let board = layout.board;
    let mut router = Router::new(board);
    let mut nets = Nets::new(board);
    let ghost r0 = router;
    let ghost n0 = nets;
    let is_aborted = router.route(board, layout, &mut nets, order, stop);
    proof {
        assert(routed(r0, n0, *old(layout), router, nets, *layout) && is_fresh_state(r0, n0, board)
            && routed_in_order(r0, n0, *old(layout), router, nets, *layout, order@, attempts(*old(layout), *layout)));
    }
    Some(is_aborted)
}

/// Whether `router` and `nets` are as new for `board`: nothing is taken, no jumper and
/// no pin is recorded, and no via belongs to a net.
pub open spec fn is_fresh_state(router: Router, nets: Nets, board: Board) -> bool {
    &&& router.wf(board)
    &&& nets.wf(board)
    &&& forall|v: Via|
        board.contains(v) ==> !router.blocked(v) && !router.jump(v).is_valid && !router.is_pin(v) && !nets.has(
            board,
            v,
        )
}

} // verus!
