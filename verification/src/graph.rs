//! The graph that the search walks: nodes, edges, paths and the steps a path stands for.
//!
//! A node is a via on one of the two layers. From a node the search may step to the next
//! via along the layer (up or down a strip, left or right along a row of the wire layer),
//! change the layer at the same via, or pass in one step through a committed jumper from
//! the strip under one of its ends to the strip under the other. A step is allowed when
//! the node it enters is available to the route; a jumper may be passed when both of its
//! ends point at each other.

use crate::board::Board;
use crate::nets::Nets;
use crate::router::Router;
use crate::settings::Settings;
use crate::via::{LayerVia, ValidVia, Via};
use vstd::prelude::*;

verus! {

/// Everything that decides which steps a route from `start` may take and what they cost.
pub struct Graph {
    pub router: Router,
    pub nets: Nets,
    pub settings: Settings,
    pub start: Via,
}

/// Whether `a` and `b` are next to each other on one layer, along the direction in which
/// that layer conducts, or are the two nodes of one via.
pub open spec fn unit_step(a: LayerVia, b: LayerVia) -> bool {
    if a.is_wire_layer && b.is_wire_layer {
        a.via.y == b.via.y && (a.via.x + 1 == b.via.x || b.via.x + 1 == a.via.x)
    } else if !a.is_wire_layer && !b.is_wire_layer {
        a.via.x == b.via.x && (a.via.y + 1 == b.via.y || b.via.y + 1 == a.via.y)
    } else {
        a.via == b.via
    }
}

/// Step `i` of `s` and the one after it.
pub open spec fn unit_step_at(s: Seq<LayerVia>, i: int) -> bool {
    unit_step(s[i], s[i + 1])
}

/// Whether each step of `s` leads to the next by a unit step.
pub open spec fn valid_steps(s: Seq<LayerVia>) -> bool {
    forall|i: int| 0 <= i < s.len() - 1 ==> #[trigger] unit_step_at(s, i)
}

/// The cells of the wire layer in row `y` from column `from` to column `to`, both
/// included, in the order in which one passes them.
pub open spec fn wire_run(y: usize, from: usize, to: usize) -> Seq<LayerVia> {
    Seq::new(
        ((if from <= to { to - from } else { from - to }) + 1) as nat,
        |i: int|
            LayerVia {
                via: Via { x: (if from <= to { from + i } else { from - i }) as usize, y },
                is_wire_layer: true,
            },
    )
}

/// The steps of `s` in the opposite order.
pub open spec fn backwards(s: Seq<LayerVia>) -> Seq<LayerVia> {
    Seq::new(s.len(), |i: int| s[s.len() - 1 - i])
}

impl Graph {
    pub open spec fn board(&self) -> Board {
        self.router.board
    }

    /// The node at which every route of this graph starts.
    pub open spec fn start_node(&self) -> LayerVia {
        LayerVia { via: self.start, is_wire_layer: false }
    }

    /// The tables fit the board, the start lies on it, every step costs something, and
    /// the cost of the longest walk without repetition fits the machine word.
    pub open spec fn wf(&self) -> bool {
        &&& self.router.wf(self.board())
        &&& self.nets.wf(self.board())
        &&& self.board().contains(self.start)
        &&& self.settings.wire_cost >= 1
        &&& self.settings.strip_cost >= 1
        &&& self.settings.via_cost >= 1
        &&& 2 * self.board().spec_size() * self.settings.spec_max_step_cost() < usize::MAX
    }

    /// Whether the route may enter `n`.
    pub open spec fn available(&self, n: LayerVia) -> bool {
        self.router.available(&self.nets, n, self.start)
    }

    /// Whether `u` leads to `v` by a unit step into an available node.
    pub open spec fn plain_edge(&self, u: LayerVia, v: LayerVia) -> bool {
        self.board().contains(u.via) && self.available(v) && unit_step(u, v)
    }

    /// Whether a committed jumper leads from the strip at `u` to the strip at `v`: the two
    /// lie in one row, in different columns, and each is recorded as the far end of the
    /// other.
    pub open spec fn jump_edge(&self, u: LayerVia, v: LayerVia) -> bool {
        &&& !u.is_wire_layer && !v.is_wire_layer
        &&& self.board().contains(u.via) && self.board().contains(v.via)
        &&& u.via.y == v.via.y && u.via.x != v.via.x
        &&& self.router.jump(u.via) == (ValidVia { via: v.via, is_valid: true })
        &&& self.router.jump(v.via) == (ValidVia { via: u.via, is_valid: true })
    }

    /// What the step from `u` to `v` costs, if there is such a step.
    pub open spec fn step_cost(&self, u: LayerVia, v: LayerVia) -> Option<usize> {
        if self.plain_edge(u, v) {
            if u.is_wire_layer && v.is_wire_layer {
                Some(self.settings.wire_cost)
            } else if !u.is_wire_layer && !v.is_wire_layer {
                Some(self.settings.strip_cost)
            } else {
                Some(self.settings.via_cost)
            }
        } else if self.jump_edge(u, v) {
            Some(self.settings.wire_cost)
        } else {
            None
        }
    }

    /// The cost of the step from node `i` of `p` to the next, if there is such a step.
    pub open spec fn edge_at(&self, p: Seq<LayerVia>, i: int) -> Option<usize> {
        self.step_cost(p[i], p[i + 1])
    }

    /// Whether `p` is a walk through the graph: it has a first node, on the board, and from
    /// each node a step leads to the next.
    pub open spec fn is_path(&self, p: Seq<LayerVia>) -> bool {
        &&& p.len() >= 1
        &&& self.board().contains(p[0].via)
        &&& forall|i: int| 0 <= i < p.len() - 1 ==> (#[trigger] self.edge_at(p, i)).is_some()
    }

    /// Whether `p` is a walk from `a` to `b`.
    pub open spec fn connects(&self, p: Seq<LayerVia>, a: LayerVia, b: LayerVia) -> bool {
        self.is_path(p) && p[0] == a && p[p.len() - 1] == b
    }

    /// Whether some walk leads from `a` to `b`.
    pub open spec fn reachable(&self, a: LayerVia, b: LayerVia) -> bool {
        exists|p: Seq<LayerVia>| self.connects(p, a, b)
    }

    /// Whether `p` is a walk from the start to `end` and no such walk costs less.
    pub open spec fn cheapest(&self, p: Seq<LayerVia>, end: LayerVia) -> bool {
        &&& self.connects(p, self.start_node(), end)
        &&& forall|q: Seq<LayerVia>| #[trigger]
            self.connects(q, self.start_node(), end) ==> self.path_cost(p) <= self.path_cost(q)
    }

    /// The sum of the costs of the steps of `p`.
    pub open spec fn path_cost(&self, p: Seq<LayerVia>) -> int
        decreases p.len(),
    {
        if p.len() <= 1 {
            0
        } else {
            self.step_cost(p[0], p[1]).unwrap() + self.path_cost(p.drop_first())
        }
    }

    /// The steps that lead from `u` to `v`, `v` included: through a jumper, up to the wire
    /// layer, along the jumper and down again.
    pub open spec fn expand_step(&self, u: LayerVia, v: LayerVia) -> Seq<LayerVia> {
        if !self.plain_edge(u, v) && self.jump_edge(u, v) {
            wire_run(u.via.y, u.via.x, v.via.x).push(v)
        } else {
            seq![v]
        }
    }

    /// The steps that follow the first node of `p`.
    pub open spec fn steps_after(&self, p: Seq<LayerVia>) -> Seq<LayerVia>
        decreases p.len(),
    {
        if p.len() <= 1 {
            Seq::empty()
        } else {
            self.expand_step(p[0], p[1]) + self.steps_after(p.drop_first())
        }
    }

    /// The step sequence that the walk `p` stands for.
    pub open spec fn expand(&self, p: Seq<LayerVia>) -> Seq<LayerVia> {
        seq![p[0]] + self.steps_after(p)
    }

    /// A walk without its first node is a walk, if a node is left.
    pub proof fn lemma_path_tail(&self, p: Seq<LayerVia>)
        requires
            self.is_path(p),
            p.len() >= 2,
        ensures
            self.is_path(p.drop_first()),
            self.step_cost(p[0], p[1]).is_some(),
            self.board().contains(p[1].via),
    {
        let q = p.drop_first();
        assert(self.edge_at(p, 0).is_some());
        assert forall|i: int| 0 <= i < q.len() - 1 implies (#[trigger] self.edge_at(q, i)).is_some() by {
            assert(self.edge_at(p, i + 1).is_some());
        }
    }

    /// A walk with a node put in front, from which a step leads to its first node, is a
    /// walk, and costs that step more.
    pub proof fn lemma_path_cons(&self, u: LayerVia, p: Seq<LayerVia>)
        requires
            self.is_path(p),
            self.board().contains(u.via),
            self.step_cost(u, p[0]).is_some(),
        ensures
            self.is_path(seq![u] + p),
            self.path_cost(seq![u] + p) == self.step_cost(u, p[0]).unwrap() + self.path_cost(p),
            self.expand(seq![u] + p) == seq![u] + self.expand_step(u, p[0]).drop_last() + self.expand(p),
    {
        let q = seq![u] + p;
        assert(q.drop_first() =~= p);
        assert forall|i: int| 0 <= i < q.len() - 1 implies (#[trigger] self.edge_at(q, i)).is_some() by {
            if i > 0 {
                assert(self.edge_at(p, i - 1).is_some());
            }
        }
        let e = self.expand_step(u, p[0]);
        assert(e[e.len() - 1] == p[0]);
        assert(e =~= e.drop_last() + seq![p[0]]);
        assert(self.expand(q) =~= seq![u] + e.drop_last() + self.expand(p));
    }

    /// No walk costs less than nothing.
    pub proof fn lemma_path_cost_nonnegative(&self, p: Seq<LayerVia>)
        ensures
            self.path_cost(p) >= 0,
        decreases p.len(),
    {
        if p.len() > 1 {
            self.lemma_path_cost_nonnegative(p.drop_first());
        }
    }

    /// The steps that a walk stands for begin and end where the walk does, stay on the
    /// board, and lead from each to the next by a unit step.
    pub proof fn lemma_expand_valid(&self, p: Seq<LayerVia>)
        requires
            self.is_path(p),
        ensures
            self.expand(p).len() >= p.len(),
            self.expand(p)[0] == p[0],
            self.expand(p)[self.expand(p).len() - 1] == p[p.len() - 1],
            valid_steps(self.expand(p)),
            forall|i: int| 0 <= i < self.expand(p).len() ==> self.board().contains(#[trigger] self.expand(p)[i].via),
        decreases p.len(),
    {
        if p.len() >= 2 {
            let rest = p.drop_first();
            self.lemma_path_tail(p);
            self.lemma_expand_valid(rest);
            assert(seq![p[0]] + rest =~= p);
            self.lemma_path_cons(p[0], rest);
            let e = self.expand_step(p[0], p[1]);
            let mid = e.drop_last();
            let tail = self.expand(rest);
            let s = self.expand(p);
            assert(s == seq![p[0]] + mid + tail);
            assert forall|i: int| 0 <= i < s.len() implies self.board().contains(#[trigger] s[i].via) by {
                if i >= 1 + mid.len() {
                    assert(s[i] == tail[i - 1 - mid.len()]);
                }
            }
            assert forall|i: int| 0 <= i < s.len() - 1 implies #[trigger] unit_step_at(s, i) by {
                if i >= 1 + mid.len() {
                    assert(unit_step_at(tail, i - 1 - mid.len()));
                    assert(s[i] == tail[i - 1 - mid.len()]);
                    assert(s[i + 1] == tail[i - mid.len()]);
                }
            }
        } else {
            assert(self.steps_after(p) =~= Seq::empty());
        }
    }
}

} // verus!
