//! From the steps of a route to its straight sections.
//!
//! A route always begins and ends on the strip layer. It is cut into sections where it
//! changes the layer: each run of two or more steps on one layer is a section, from the
//! first step of the run to its last. A run of a single step, where the route only
//! passes through a via from one layer to the other, gives no section.

use crate::graph::{unit_step, unit_step_at, valid_steps};
use crate::via::{LayerStartEndVia, LayerVia, Via};
use vstd::prelude::*;

verus! {

/// The sections of the steps of `route` from place `run_start` on, where the steps from
/// `run_start` up to `i` are known to lie on one layer.
pub open spec fn condense_from(route: Seq<LayerVia>, run_start: int, i: int) -> Seq<LayerStartEndVia>
    decreases route.len() - i,
{
    if i >= route.len() {
        if run_start < route.len() - 1 {
            seq![LayerStartEndVia { start: route[run_start], end: route[route.len() - 1] }]
        } else {
            Seq::empty()
        }
    } else if route[i].is_wire_layer != route[i - 1].is_wire_layer {
        (if run_start < i - 1 {
            seq![LayerStartEndVia { start: route[run_start], end: route[i - 1] }]
        } else {
            Seq::empty()
        }) + condense_from(route, i, i + 1)
    } else {
        condense_from(route, run_start, i + 1)
    }
}

/// The sections of `route`.
pub open spec fn sections_of(route: Seq<LayerVia>) -> Seq<LayerStartEndVia> {
    if route.len() == 0 {
        Seq::empty()
    } else {
        condense_from(route, 0, 1)
    }
}

/// Whether a section lies on one layer and along the direction in which that layer
/// conducts: in one row on the wire layer, in one column on the strip layer.
pub open spec fn straight(s: LayerStartEndVia) -> bool {
    &&& s.start.is_wire_layer == s.end.is_wire_layer
    &&& if s.start.is_wire_layer {
        s.start.via.y == s.end.via.y
    } else {
        s.start.via.x == s.end.via.x
    }
}

/// Whether `x` lies between `a` and `b`, both included, whichever of them is smaller.
pub open spec fn between(a: usize, b: usize, x: usize) -> bool {
    (a <= x <= b) || (b <= x <= a)
}

/// Whether `route` passes, on the wire layer, over every cell of the wire section `s`.
pub open spec fn covered(route: Seq<LayerVia>, s: LayerStartEndVia) -> bool {
    s.start.is_wire_layer ==> forall|x: usize| #[trigger]
        between(s.start.via.x, s.end.via.x, x) ==> route.contains(
            LayerVia { via: Via { x, y: s.start.via.y }, is_wire_layer: true },
        )
}

/// Whether the steps of `route` from place `a` to place `b` lie on the layer, and in the
/// row or column, of the step at `a`.
pub open spec fn is_run(route: Seq<LayerVia>, a: int, b: int) -> bool {
    &&& 0 <= a <= b < route.len()
    &&& forall|j: int|
        a <= j <= b ==> (#[trigger] route[j]).is_wire_layer == route[a].is_wire_layer && (if route[a].is_wire_layer {
            route[j].via.y == route[a].via.y
        } else {
            route[j].via.x == route[a].via.x
        })
}

/// A run on the wire layer passes over every cell between its two ends.
proof fn lemma_run_covers(route: Seq<LayerVia>, a: int, b: int, x: usize)
    requires
        valid_steps(route),
        is_run(route, a, b),
        route[a].is_wire_layer,
        between(route[a].via.x, route[b].via.x, x),
    ensures
        exists|j: int| a <= j <= b && route[j] == (LayerVia { via: Via { x, y: route[a].via.y }, is_wire_layer: true }),
    decreases b - a,
{
    if route[b].via.x == x {
        assert(route[b] == (LayerVia { via: Via { x, y: route[a].via.y }, is_wire_layer: true }));
    } else {
        assert(a < b);
        assert(unit_step_at(route, b - 1));
        assert(route[b - 1].is_wire_layer);
        lemma_run_covers(route, a, b - 1, x);
    }
}

/// Every section of a route whose steps are unit steps is straight, and the route passes
/// over every cell of each of its wire sections.
pub proof fn lemma_sections_from(route: Seq<LayerVia>, run_start: int, i: int)
    requires
        valid_steps(route),
        0 <= run_start < i <= route.len(),
        is_run(route, run_start, i - 1),
    ensures
        forall|k: int|
            0 <= k < condense_from(route, run_start, i).len() ==> straight(
                #[trigger] condense_from(route, run_start, i)[k],
            ) && covered(route, condense_from(route, run_start, i)[k]),
    decreases route.len() - i,
{
    let out = condense_from(route, run_start, i);
    if i >= route.len() {
        if run_start < route.len() - 1 {
            lemma_run_is_section(route, run_start, route.len() - 1);
            assert(out[0] == (LayerStartEndVia { start: route[run_start], end: route[route.len() - 1] }));
        }
        assert forall|k: int| 0 <= k < out.len() implies straight(#[trigger] out[k]) && covered(
            route,
            out[k],
        ) by {}
    } else if route[i].is_wire_layer != route[i - 1].is_wire_layer {
        let head = if run_start < i - 1 {
            seq![LayerStartEndVia { start: route[run_start], end: route[i - 1] }]
        } else {
            Seq::empty()
        };
        let tail = condense_from(route, i, i + 1);
        lemma_sections_from(route, i, i + 1);
        if run_start < i - 1 {
            lemma_run_is_section(route, run_start, i - 1);
        }
        assert forall|k: int| 0 <= k < out.len() implies straight(#[trigger] out[k]) && covered(
            route,
            out[k],
        ) by {
            if k >= head.len() {
                assert(out[k] == tail[k - head.len()]);
            } else {
                assert(out[k] == head[k]);
            }
        }
    } else {
        assert(unit_step_at(route, i - 1));
        assert(is_run(route, run_start, i)) by {
            assert(route[i - 1].is_wire_layer == route[run_start].is_wire_layer);
        }
        lemma_sections_from(route, run_start, i + 1);
        assert(out == condense_from(route, run_start, i + 1));
        assert forall|k: int| 0 <= k < out.len() implies straight(#[trigger] out[k]) && covered(
            route,
            out[k],
        ) by {
            assert(out[k] == condense_from(route, run_start, i + 1)[k]);
        }
    }
}

proof fn lemma_run_is_section(route: Seq<LayerVia>, a: int, b: int)
    requires
        valid_steps(route),
        is_run(route, a, b),
    ensures
        straight(LayerStartEndVia { start: route[a], end: route[b] }),
        covered(route, LayerStartEndVia { start: route[a], end: route[b] }),
{
    let s = LayerStartEndVia { start: route[a], end: route[b] };
    if route[a].is_wire_layer {
        assert forall|x: usize| #[trigger] between(s.start.via.x, s.end.via.x, x) implies route.contains(
            LayerVia { via: Via { x, y: s.start.via.y }, is_wire_layer: true },
        ) by {
            lemma_run_covers(route, a, b, x);
        }
    }
}

/// Every section of a route whose steps are unit steps lies on one layer, a wire section
/// in one row and a strip section in one column, and the route passes over every cell of
/// each of its wire sections.
pub proof fn lemma_sections_straight(route: Seq<LayerVia>)
    requires
        valid_steps(route),
    ensures
        forall|k: int|
            0 <= k < sections_of(route).len() ==> straight(#[trigger] sections_of(route)[k]) && covered(
                route,
                sections_of(route)[k],
            ),
{
    if route.len() > 0 {
        lemma_sections_from(route, 0, 1);
    }
}

proof fn lemma_section_ends_from(route: Seq<LayerVia>, run_start: int, i: int)
    requires
        0 <= run_start < i <= route.len(),
    ensures
        forall|k: int|
            0 <= k < condense_from(route, run_start, i).len() ==> route.contains(
                (#[trigger] condense_from(route, run_start, i)[k]).start,
            ) && route.contains(condense_from(route, run_start, i)[k].end),
    decreases route.len() - i,
{
    let out = condense_from(route, run_start, i);
    if i >= route.len() {
        if run_start < route.len() - 1 {
            assert(route[run_start] == out[0].start);
            assert(route[route.len() - 1] == out[0].end);
        }
    } else if route[i].is_wire_layer != route[i - 1].is_wire_layer {
        let head = if run_start < i - 1 {
            seq![LayerStartEndVia { start: route[run_start], end: route[i - 1] }]
        } else {
            Seq::empty()
        };
        let tail = condense_from(route, i, i + 1);
        lemma_section_ends_from(route, i, i + 1);
        assert forall|k: int| 0 <= k < out.len() implies route.contains((#[trigger] out[k]).start)
            && route.contains(out[k].end) by {
            if k >= head.len() {
                assert(out[k] == tail[k - head.len()]);
            } else {
                assert(out[k] == head[k]);
                assert(route[run_start] == out[k].start);
                assert(route[i - 1] == out[k].end);
            }
        }
    } else {
        lemma_section_ends_from(route, run_start, i + 1);
        assert(out == condense_from(route, run_start, i + 1));
        assert forall|k: int| 0 <= k < out.len() implies route.contains((#[trigger] out[k]).start)
            && route.contains(out[k].end) by {
            assert(out[k] == condense_from(route, run_start, i + 1)[k]);
        }
    }
}

/// Both ends of every section of a route are steps of the route.
pub proof fn lemma_section_ends(route: Seq<LayerVia>)
    ensures
        forall|k: int|
            0 <= k < sections_of(route).len() ==> route.contains((#[trigger] sections_of(route)[k]).start)
                && route.contains(sections_of(route)[k].end),
{
    if route.len() > 0 {
        lemma_section_ends_from(route, 0, 1);
    }
}

/// Cuts the steps of a route into its sections.
pub fn condense(route_step_vec: &Vec<LayerVia>) -> (sections: Vec<LayerStartEndVia>)
    requires
        route_step_vec@.len() >= 1,
    ensures
        sections@ == sections_of(route_step_vec@),
{
    let mut route_section_vec: Vec<LayerStartEndVia> = Vec::new();
    let n = route_step_vec.len();
    let mut run_start: usize = 0;
    let mut i: usize = 1;
    while i < n
        invariant
            1 <= i <= n,
            n == route_step_vec@.len(),
            run_start < i,
            route_section_vec@ + condense_from(route_step_vec@, run_start as int, i as int) == sections_of(
                route_step_vec@,
            ),
        decreases n - i,
    {
        let ghost before = route_section_vec@;
        if route_step_vec[i].is_wire_layer != route_step_vec[i - 1].is_wire_layer {
            if run_start < i - 1 {
                route_section_vec.push(
                    LayerStartEndVia { start: route_step_vec[run_start], end: route_step_vec[i - 1] },
                );
            }
            proof {
                let head = if run_start < i - 1 {
                    seq![LayerStartEndVia { start: route_step_vec@[run_start as int], end: route_step_vec@[i - 1] }]
                } else {
                    Seq::empty()
                };
                assert(route_section_vec@ =~= before + head);
                assert(before + (head + condense_from(route_step_vec@, i as int, i + 1)) =~= (before + head)
                    + condense_from(route_step_vec@, i as int, i + 1));
            }
            run_start = i;
        }
        i += 1;
    }
    let ghost before = route_section_vec@;
    if run_start < n - 1 {
        route_section_vec.push(
            LayerStartEndVia { start: route_step_vec[run_start], end: route_step_vec[n - 1] },
        );
    }
    proof {
        assert(route_section_vec@ =~= before + condense_from(route_step_vec@, run_start as int, n as int));
    }
    route_section_vec
}

} // verus!
