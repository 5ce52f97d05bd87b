//! Uniform-cost search for the cheapest route of one connection.

use crate::board::Board;
use crate::graph::{backwards, valid_steps, wire_run, Graph};
use crate::layout::Layout;
use crate::nets::Nets;
use crate::router::Router;
use crate::settings::Settings;
use crate::via::{comes_before, CostVia, LayerCostVia, LayerVia, StartEndVia, ValidVia, Via};
use vstd::prelude::*;

verus! {

/// One flag for each of the two nodes of a via.
#[derive(Clone, Copy, PartialEq, Eq, Structural, Debug)]
pub struct LayerMarks {
    pub wire: bool,
    pub strip: bool,
}

/// The flag that `m` holds for node `n`.
pub open spec fn mark(m: Seq<LayerMarks>, board: Board, n: LayerVia) -> bool {
    let c = m[board.spec_idx(n.via)];
    if n.is_wire_layer {
        c.wire
    } else {
        c.strip
    }
}

/// The number of flags in `m` that are not set.
pub open spec fn unmarked_count(m: Seq<LayerMarks>) -> nat
    decreases m.len(),
{
    if m.len() == 0 {
        0
    } else {
        unmarked_count(m.drop_last()) + (if m.last().wire { 0nat } else { 1nat }) + (if m.last().strip {
            0nat
        } else {
            1nat
        })
    }
}

/// The flags in `m` that are not set, counted for one via.
pub open spec fn unmarked_in(c: LayerMarks) -> nat {
    (if c.wire { 0nat } else { 1nat }) + (if c.strip { 0nat } else { 1nat })
}

proof fn lemma_unmarked_update(m: Seq<LayerMarks>, i: int, c: LayerMarks)
    requires
        0 <= i < m.len(),
    ensures
        unmarked_count(m.update(i, c)) + unmarked_in(m[i]) == unmarked_count(m) + unmarked_in(c),
    decreases m.len(),
{
    let m2 = m.update(i, c);
    if i == m.len() - 1 {
        assert(m2.drop_last() =~= m.drop_last());
    } else {
        assert(m2.drop_last() =~= m.drop_last().update(i, c));
        lemma_unmarked_update(m.drop_last(), i, c);
    }
}

proof fn lemma_unmarked_fresh(m: Seq<LayerMarks>)
    requires
        forall|i: int| 0 <= i < m.len() ==> !m[i].wire && !m[i].strip,
    ensures
        unmarked_count(m) == 2 * m.len(),
    decreases m.len(),
{
    if m.len() > 0 {
        lemma_unmarked_fresh(m.drop_last());
    }
}

/// The graph in which a route from `start` is sought.
pub open spec fn search_graph(router: &Router, nets: &Nets, settings: Settings, start: Via) -> Graph {
    Graph { router: *router, nets: *nets, settings, start }
}

/// Whether `route` is the step sequence of a cheapest walk of `g` from its start to `end`,
/// and `cost` the cost of that walk.
pub open spec fn is_lowest_cost_route(g: Graph, end: LayerVia, route: Seq<LayerVia>, cost: int) -> bool {
    exists|p: Seq<LayerVia>| #[trigger] g.cheapest(p, end) && route == g.expand(p) && cost == g.path_cost(p)
}

/// The cost of a cheapest route stays below the limit of the graph.
pub proof fn lemma_route_cost_bounded(g: Graph, end: LayerVia, route: Seq<LayerVia>, cost: int)
    requires
        g.wf(),
        g.board().contains(end.via),
        is_lowest_cost_route(g, end, route, cost),
    ensures
        0 <= cost,
{
    let p = choose|p: Seq<LayerVia>| #[trigger] g.cheapest(p, end) && route == g.expand(p) && cost == g.path_cost(p);
    g.lemma_path_cost_nonnegative(p);
}

/// Whether `b` is `a` but for its cost and what it keeps for diagnosis of the last route.
pub open spec fn same_but_cost_and_diag(a: Layout, b: Layout) -> bool {
    b == (Layout {
        cost: b.cost,
        diag_route_step_vec: b.diag_route_step_vec,
        diag_start_via: b.diag_start_via,
        diag_end_via: b.diag_end_via,
        ..a
    })
}

/// The state of one search.
#[derive(Debug)]
pub struct UniformCostSearch {
    /// For each node, the cost at which it was reached, or `usize::MAX`.
    pub via_cost_vec: Vec<CostVia>,
    /// The nodes that were reached and are not explored yet.
    pub frontier_pri: Vec<LayerVia>,
    /// For each node, whether it waits in the frontier.
    pub frontier_set: Vec<LayerMarks>,
    /// For each node, whether it has been explored.
    pub explored_set: Vec<LayerMarks>,
}

impl UniformCostSearch {
    /// The tables cover `board`.
    pub open spec fn sized(&self, board: Board) -> bool {
        &&& board.wf()
        &&& self.via_cost_vec@.len() == board.spec_size()
        &&& self.frontier_set@.len() == board.spec_size()
        &&& self.explored_set@.len() == board.spec_size()
    }

    /// The cost at which `n` was reached, or `usize::MAX`.
    pub open spec fn cost(&self, board: Board, n: LayerVia) -> usize {
        let c = self.via_cost_vec@[board.spec_idx(n.via)];
        if n.is_wire_layer {
            c.wire_cost
        } else {
            c.strip_cost
        }
    }

    pub open spec fn in_frontier(&self, board: Board, n: LayerVia) -> bool {
        mark(self.frontier_set@, board, n)
    }

    pub open spec fn explored(&self, board: Board, n: LayerVia) -> bool {
        mark(self.explored_set@, board, n)
    }

    pub open spec fn reached(&self, board: Board, n: LayerVia) -> bool {
        self.in_frontier(board, n) || self.explored(board, n)
    }

    /// Nothing has been reached.
    pub open spec fn is_fresh(&self, board: Board) -> bool {
        &&& self.sized(board)
        &&& self.frontier_pri@.len() == 0
        &&& forall|i: int|
            0 <= i < self.via_cost_vec@.len() ==> (#[trigger] self.via_cost_vec@[i]) == (CostVia {
                wire_cost: usize::MAX,
                strip_cost: usize::MAX,
            })
        &&& forall|i: int|
            0 <= i < self.frontier_set@.len() ==> (#[trigger] self.frontier_set@[i]) == (LayerMarks {
                wire: false,
                strip: false,
            })
        &&& forall|i: int|
            0 <= i < self.explored_set@.len() ==> (#[trigger] self.explored_set@[i]) == (LayerMarks {
                wire: false,
                strip: false,
            })
    }

    /// The entry that stands for place `k` of the frontier list.
    pub open spec fn entry(&self, board: Board, k: int) -> LayerCostVia {
        LayerCostVia { layer_via: self.frontier_pri@[k], cost: self.cost(board, self.frontier_pri@[k]) }
    }

    /// The frontier list holds exactly the nodes flagged as waiting, each once.
    #[verifier::opaque]
    pub open spec fn frontier_ok(&self, board: Board) -> bool {
        &&& forall|k: int|
            0 <= k < self.frontier_pri@.len() ==> board.contains((#[trigger] self.frontier_pri@[k]).via)
                && self.in_frontier(board, self.frontier_pri@[k])
        &&& forall|n: LayerVia|
            board.contains(n.via) && #[trigger] self.in_frontier(board, n) ==> self.frontier_pri@.contains(n)
        &&& forall|j: int, k: int|
            0 <= j < k < self.frontier_pri@.len() ==> #[trigger] self.frontier_pri@[j]
                != #[trigger] self.frontier_pri@[k]
    }

    /// No node both waits in the frontier and is explored.
    #[verifier::opaque]
    pub open spec fn apart(&self, board: Board) -> bool {
        forall|n: LayerVia|
            board.contains(n.via) ==> !(#[trigger] self.in_frontier(board, n) && self.explored(board, n))
    }

    /// A node that was not reached has the cost `usize::MAX`.
    #[verifier::opaque]
    pub open spec fn unreached_max(&self, board: Board) -> bool {
        forall|n: LayerVia|
            board.contains(n.via) && !self.reached(board, n) ==> #[trigger] self.cost(board, n)
                == usize::MAX
    }

    /// Whether `n` was reached from `p`: `p` is explored and its cost and the step add up
    /// to the cost of `n`.
    pub open spec fn is_pred(&self, g: Graph, p: LayerVia, n: LayerVia) -> bool {
        &&& g.board().contains(p.via)
        &&& self.explored(g.board(), p)
        &&& g.step_cost(p, n).is_some()
        &&& self.cost(g.board(), p) + g.step_cost(p, n).unwrap() == self.cost(g.board(), n)
    }

    /// The cost that no node can exceed.
    pub open spec fn limit(g: Graph) -> int {
        2 * g.board().spec_size() * g.settings.spec_max_step_cost()
    }

    /// The room that is left below the limit: one largest step for each unexplored node.
    pub open spec fn room(&self, g: Graph) -> int {
        unmarked_count(self.explored_set@) * g.settings.spec_max_step_cost()
    }

    /// The cost of every node that was reached leaves the room for the unexplored ones.
    #[verifier::opaque]
    pub open spec fn bounded(&self, g: Graph) -> bool {
        forall|n: LayerVia|
            g.board().contains(n.via) && self.reached(g.board(), n) ==> (#[trigger] self.cost(
                g.board(),
                n,
            )) + self.room(g) <= Self::limit(g)
    }

    /// Every node that was reached, but for the start, was reached from an explored node.
    #[verifier::opaque]
    pub open spec fn has_preds(&self, g: Graph) -> bool {
        forall|n: LayerVia|
            g.board().contains(n.via) && #[trigger] self.reached(g.board(), n) && n != g.start_node()
                ==> exists|p: LayerVia| #[trigger] self.is_pred(g, p, n)
    }

    /// No explored node costs more than a node that waits in the frontier.
    #[verifier::opaque]
    pub open spec fn ordered(&self, board: Board) -> bool {
        forall|u: LayerVia, f: LayerVia|
            board.contains(u.via) && board.contains(f.via) && #[trigger] self.explored(board, u)
                && #[trigger] self.in_frontier(board, f) ==> self.cost(board, u) <= self.cost(board, f)
    }

    /// No explored node costs more than `cur`.
    #[verifier::opaque]
    pub open spec fn tops(&self, board: Board, cur: LayerVia) -> bool {
        forall|x: LayerVia|
            board.contains(x.via) && #[trigger] self.explored(board, x) ==> self.cost(board, x)
                <= self.cost(board, cur)
    }

    /// Whether the step from `cur` to `v`, if there is one, has been taken note of.
    pub open spec fn settled(&self, g: Graph, cur: LayerVia, v: LayerVia) -> bool {
        g.step_cost(cur, v).is_some() ==> self.reached(g.board(), v) && self.cost(g.board(), v)
            <= self.cost(g.board(), cur) + g.step_cost(cur, v).unwrap()
    }

    /// Every step that leaves an explored node other than `skip` leads to a node that was
    /// reached at no more than the cost of the explored node and the step.
    #[verifier::opaque]
    pub open spec fn closed_except(&self, g: Graph, skip: Option<LayerVia>) -> bool {
        forall|u: LayerVia, v: LayerVia|
            g.board().contains(u.via) && self.explored(g.board(), u) && Some(u) != skip && (
            #[trigger] g.step_cost(u, v)).is_some() ==> self.settled(g, u, v)
    }

    /// Nothing that is still unexplored was reached more cheaply than `end`.
    #[verifier::opaque]
    pub open spec fn end_is_least(&self, board: Board, end: LayerVia) -> bool {
        forall|x: LayerVia|
            board.contains(x.via) && !(#[trigger] self.explored(board, x)) ==> self.cost(board, end)
                <= self.cost(board, x)
    }

    /// What holds of the tables throughout a search towards `end`, but for the steps that
    /// leave explored nodes.
    pub open spec fn inv_core(&self, g: Graph, end: LayerVia) -> bool {
        let board = g.board();
        &&& g.wf()
        &&& self.sized(board)
        &&& board.contains(end.via)
        &&& self.frontier_ok(board)
        &&& self.apart(board)
        &&& self.cost(board, g.start_node()) == 0
        &&& self.reached(board, g.start_node())
        &&& self.unreached_max(board)
        &&& self.bounded(g)
        &&& self.has_preds(g)
        &&& self.ordered(board)
        &&& !self.explored(board, end)
    }

    /// What holds of the tables between two rounds of a search towards `end`.
    pub open spec fn inv(&self, g: Graph, end: LayerVia) -> bool {
        self.inv_core(g, end) && self.closed_except(g, None)
    }

    /// What holds of the tables while the steps that leave `cur` are being looked at.
    pub open spec fn inv_open(&self, g: Graph, end: LayerVia, cur: LayerVia) -> bool {
        let board = g.board();
        &&& self.inv_core(g, end)
        &&& self.closed_except(g, Some(cur))
        &&& board.contains(cur.via)
        &&& self.explored(board, cur)
        &&& self.tops(board, cur)
        &&& self.cost(board, cur) + self.room(g) + g.settings.spec_max_step_cost() <= Self::limit(g)
    }

    /// What holds of the tables when a search has found `end`: `end` was reached, and
    /// nothing that is still unexplored was reached more cheaply.
    pub open spec fn done(&self, g: Graph, end: LayerVia) -> bool {
        &&& self.inv(g, end)
        &&& self.reached(g.board(), end)
        &&& self.end_is_least(g.board(), end)
    }

    /// No walk from the start to `end` is cheaper than the cost at which `end` was found.
    pub proof fn lemma_optimal(&self, g: Graph, end: LayerVia, q: Seq<LayerVia>)
        requires
            self.done(g, end),
            g.connects(q, g.start_node(), end),
        ensures
            self.cost(g.board(), end) <= g.path_cost(q),
    {
        g.lemma_path_cost_nonnegative(q);
        if self.explored(g.board(), g.start_node()) {
            self.lemma_optimal_from(g, end, q);
        } else {
            reveal(UniformCostSearch::end_is_least);
        }
    }

    proof fn lemma_optimal_from(&self, g: Graph, end: LayerVia, q: Seq<LayerVia>)
        requires
            self.done(g, end),
            g.is_path(q),
            q[q.len() - 1] == end,
            self.explored(g.board(), q[0]),
        ensures
            self.cost(g.board(), end) <= self.cost(g.board(), q[0]) + g.path_cost(q),
        decreases q.len(),
    {
        if q.len() >= 2 {
            let rest = q.drop_first();
            g.lemma_path_tail(q);
            g.lemma_path_cost_nonnegative(rest);
            assert(g.step_cost(q[0], q[1]).is_some());
            assert(self.settled(g, q[0], q[1])) by {
                reveal(UniformCostSearch::closed_except);
            }
            if self.explored(g.board(), q[1]) {
                self.lemma_optimal_from(g, end, rest);
            } else {
                reveal(UniformCostSearch::end_is_least);
            }
        }
    }

    /// When nothing waits in the frontier, every walk from an explored node ends at an
    /// explored node.
    proof fn lemma_closed(&self, g: Graph, end: LayerVia, q: Seq<LayerVia>)
        requires
            self.inv(g, end),
            self.frontier_pri@.len() == 0,
            g.is_path(q),
            self.explored(g.board(), q[0]),
        ensures
            self.explored(g.board(), q[q.len() - 1]),
        decreases q.len(),
    {
        if q.len() >= 2 {
            let rest = q.drop_first();
            g.lemma_path_tail(q);
            assert(g.step_cost(q[0], q[1]).is_some());
            assert(self.settled(g, q[0], q[1])) by {
                reveal(UniformCostSearch::closed_except);
            }
            if self.in_frontier(g.board(), q[1]) {
                reveal(UniformCostSearch::frontier_ok);
                assert(self.frontier_pri@.contains(q[1]));
            }
            self.lemma_closed(g, end, rest);
        }
    }

    /// A search state for `board` in which nothing has been reached.
    pub fn new(board: Board) -> (s: Self)
        requires
            board.wf(),
        ensures
            s.is_fresh(board),
    {
        let n = board.size();
        let mut via_cost_vec: Vec<CostVia> = Vec::new();
        let mut frontier_set: Vec<LayerMarks> = Vec::new();
        let mut explored_set: Vec<LayerMarks> = Vec::new();
        let mut i: usize = 0;
        while i < n
            invariant
                i <= n,
                via_cost_vec@.len() == i,
                frontier_set@.len() == i,
                explored_set@.len() == i,
                forall|j: int|
                    0 <= j < i ==> (#[trigger] via_cost_vec@[j]) == (CostVia {
                        wire_cost: usize::MAX,
                        strip_cost: usize::MAX,
                    }),
                forall|j: int|
                    0 <= j < i ==> (#[trigger] frontier_set@[j]) == (LayerMarks { wire: false, strip: false }),
                forall|j: int|
                    0 <= j < i ==> (#[trigger] explored_set@[j]) == (LayerMarks { wire: false, strip: false }),
            decreases n - i,
        {
            via_cost_vec.push(CostVia::new());
            frontier_set.push(LayerMarks { wire: false, strip: false });
            explored_set.push(LayerMarks { wire: false, strip: false });
            i += 1;
        }
        Self { via_cost_vec, frontier_pri: Vec::new(), frontier_set, explored_set }
    }

    /// The cost at which `layer_via` was reached, or `usize::MAX`.
    pub fn get_cost(&self, board: Board, layer_via: LayerVia) -> (c: usize)
        requires
            self.sized(board),
            board.contains(layer_via.via),
        ensures
            c == self.cost(board, layer_via),
    {
        let i = board.idx(layer_via.via);
        if layer_via.is_wire_layer {
            self.via_cost_vec[i].wire_cost
        } else {
            self.via_cost_vec[i].strip_cost
        }
    }

    /// Records that `layer_via` was reached at `cost`.
    pub fn set_cost(&mut self, board: Board, layer_via: LayerVia, cost: usize)
        requires
            old(self).sized(board),
            board.contains(layer_via.via),
        ensures
            final(self).sized(board),
            final(self).frontier_pri == old(self).frontier_pri,
            final(self).frontier_set == old(self).frontier_set,
            final(self).explored_set == old(self).explored_set,
            final(self).cost(board, layer_via) == cost,
            forall|n: LayerVia|
                board.contains(n.via) && n != layer_via ==> #[trigger] final(self).cost(board, n) == old(self).cost(board, n),
    {
        let i = board.idx(layer_via.via);
        let mut c = self.via_cost_vec[i];
        if layer_via.is_wire_layer {
            c.wire_cost = cost;
        } else {
            c.strip_cost = cost;
        }
        self.via_cost_vec[i] = c;
        proof {
            let after = *self;
            assert forall|n: LayerVia| board.contains(n.via) && n != layer_via implies #[trigger] after.cost(
                board,
                n,
            ) == old(self).cost(board, n) by {
                board.lemma_idx(n.via);
                if board.spec_idx(n.via) == board.spec_idx(layer_via.via) {
                    board.lemma_idx_injective(n.via, layer_via.via);
                }
            }
        }
    }

    fn is_in_frontier(&self, board: Board, n: LayerVia) -> (r: bool)
        requires
            self.sized(board),
            board.contains(n.via),
        ensures
            r == self.in_frontier(board, n),
    {
        let c = self.frontier_set[board.idx(n.via)];
        if n.is_wire_layer {
            c.wire
        } else {
            c.strip
        }
    }

    fn is_explored(&self, board: Board, n: LayerVia) -> (r: bool)
        requires
            self.sized(board),
            board.contains(n.via),
        ensures
            r == self.explored(board, n),
    {
        let c = self.explored_set[board.idx(n.via)];
        if n.is_wire_layer {
            c.wire
        } else {
            c.strip
        }
    }

    fn set_in_frontier(&mut self, board: Board, n: LayerVia, value: bool)
        requires
            old(self).sized(board),
            board.contains(n.via),
        ensures
            final(self).sized(board),
            final(self).frontier_pri == old(self).frontier_pri,
            final(self).via_cost_vec == old(self).via_cost_vec,
            final(self).explored_set == old(self).explored_set,
            final(self).in_frontier(board, n) == value,
            forall|m: LayerVia|
                board.contains(m.via) && m != n ==> #[trigger] final(self).in_frontier(board, m) == old(self).in_frontier(board, m),
    {
        let i = board.idx(n.via);
        let mut c = self.frontier_set[i];
        if n.is_wire_layer {
            c.wire = value;
        } else {
            c.strip = value;
        }
        self.frontier_set[i] = c;
        proof {
            let after = *self;
            assert forall|m: LayerVia| board.contains(m.via) && m != n implies #[trigger] after.in_frontier(
                board,
                m,
            ) == old(self).in_frontier(board, m) by {
                board.lemma_idx(m.via);
                if board.spec_idx(m.via) == board.spec_idx(n.via) {
                    board.lemma_idx_injective(m.via, n.via);
                }
            }
        }
    }

    fn set_explored(&mut self, board: Board, n: LayerVia)
        requires
            old(self).sized(board),
            board.contains(n.via),
            !old(self).explored(board, n),
        ensures
            final(self).sized(board),
            final(self).frontier_pri == old(self).frontier_pri,
            final(self).via_cost_vec == old(self).via_cost_vec,
            final(self).frontier_set == old(self).frontier_set,
            final(self).explored(board, n),
            unmarked_count(final(self).explored_set@) + 1 == unmarked_count(old(self).explored_set@),
            forall|m: LayerVia|
                board.contains(m.via) && m != n ==> #[trigger] final(self).explored(board, m) == old(self).explored(board, m),
    {
        let i = board.idx(n.via);
        let mut c = self.explored_set[i];
        if n.is_wire_layer {
            c.wire = true;
        } else {
            c.strip = true;
        }
        proof {
            lemma_unmarked_update(self.explored_set@, i as int, c);
        }
        self.explored_set[i] = c;
        proof {
            let after = *self;
            assert forall|m: LayerVia| board.contains(m.via) && m != n implies #[trigger] after.explored(
                board,
                m,
            ) == old(self).explored(board, m) by {
                board.lemma_idx(m.via);
                if board.spec_idx(m.via) == board.spec_idx(n.via) {
                    board.lemma_idx_injective(m.via, n.via);
                }
            }
        }
    }

    /// Whether `t` records of every node but `x` what `s` records of it.
    pub open spec fn same_but(s: Self, t: Self, board: Board, x: LayerVia) -> bool {
        &&& s.sized(board)
        &&& t.sized(board)
        &&& forall|n: LayerVia|
            board.contains(n.via) && n != x ==> #[trigger] t.cost(board, n) == s.cost(board, n)
        &&& forall|n: LayerVia|
            board.contains(n.via) && n != x ==> #[trigger] t.in_frontier(board, n) == s.in_frontier(
                board,
                n,
            )
        &&& forall|n: LayerVia|
            board.contains(n.via) && n != x ==> #[trigger] t.explored(board, n) == s.explored(board, n)
    }

    /// Whether `t` is `s` after `next`, not explored, has joined the frontier at cost `c`
    /// or has had its cost lowered to `c` there.
    pub open spec fn updated(s: Self, t: Self, board: Board, next: LayerVia, c: usize) -> bool {
        &&& Self::same_but(s, t, board, next)
        &&& board.contains(next.via)
        &&& !s.explored(board, next)
        &&& !t.explored(board, next)
        &&& t.explored_set == s.explored_set
        &&& t.in_frontier(board, next)
        &&& t.cost(board, next) == c
        &&& c <= s.cost(board, next)
        &&& s.in_frontier(board, next) ==> t.frontier_pri@ == s.frontier_pri@
        &&& !s.in_frontier(board, next) ==> t.frontier_pri@ == s.frontier_pri@.push(next)
    }

    /// Whether `t` is `s` after `node`, which waited in the frontier at place `k`, has
    /// been moved to the explored nodes.
    pub open spec fn popped(s: Self, t: Self, board: Board, k: int) -> bool {
        &&& 0 <= k < s.frontier_pri@.len()
        &&& Self::same_but(s, t, board, s.frontier_pri@[k])
        &&& board.contains(s.frontier_pri@[k].via)
        &&& t.cost(board, s.frontier_pri@[k]) == s.cost(board, s.frontier_pri@[k])
        &&& s.in_frontier(board, s.frontier_pri@[k])
        &&& !s.explored(board, s.frontier_pri@[k])
        &&& !t.in_frontier(board, s.frontier_pri@[k])
        &&& t.explored(board, s.frontier_pri@[k])
        &&& t.frontier_pri@ == s.frontier_pri@.remove(k)
        &&& unmarked_count(t.explored_set@) + 1 == unmarked_count(s.explored_set@)
    }

    proof fn lemma_update_frontier(s: Self, t: Self, board: Board, next: LayerVia, c: usize)
        requires
            s.frontier_ok(board),
            Self::updated(s, t, board, next, c),
        ensures
            t.frontier_ok(board),
    {
        reveal(UniformCostSearch::frontier_ok);
        assert forall|k: int| 0 <= k < t.frontier_pri@.len() implies board.contains(
            (#[trigger] t.frontier_pri@[k]).via,
        ) && t.in_frontier(board, t.frontier_pri@[k]) by {
            if k < s.frontier_pri@.len() {
                let n = s.frontier_pri@[k];
                assert(t.frontier_pri@[k] == n);
                assert(s.in_frontier(board, n));
                if n != next {
                    assert(t.in_frontier(board, n) == s.in_frontier(board, n));
                }
            }
        }
        assert forall|n: LayerVia| board.contains(n.via) && #[trigger] t.in_frontier(
            board,
            n,
        ) implies t.frontier_pri@.contains(n) by {
            if n == next && !s.in_frontier(board, next) {
                assert(t.frontier_pri@[s.frontier_pri@.len() as int] == next);
            } else {
                if n != next {
                    assert(t.in_frontier(board, n) == s.in_frontier(board, n));
                }
                assert(s.in_frontier(board, n));
                assert(s.frontier_pri@.contains(n));
                let k = choose|k: int| 0 <= k < s.frontier_pri@.len() && s.frontier_pri@[k] == n;
                assert(t.frontier_pri@[k] == n);
            }
        }
        assert forall|j: int, k: int| 0 <= j < k < t.frontier_pri@.len() implies #[trigger] t.frontier_pri@[j]
            != #[trigger] t.frontier_pri@[k] by {
            if k == s.frontier_pri@.len() {
                assert(s.in_frontier(board, s.frontier_pri@[j]));
            }
        }
    }

    proof fn lemma_update_apart(s: Self, t: Self, board: Board, next: LayerVia, c: usize)
        requires
            s.apart(board),
            Self::updated(s, t, board, next, c),
        ensures
            t.apart(board),
    {
        reveal(UniformCostSearch::apart);
        assert forall|n: LayerVia| board.contains(n.via) implies !(#[trigger] t.in_frontier(board, n)
            && t.explored(board, n)) by {
            if n != next {
                assert(t.in_frontier(board, n) == s.in_frontier(board, n));
                assert(t.explored(board, n) == s.explored(board, n));
            }
        }
    }

    proof fn lemma_update_unreached(s: Self, t: Self, board: Board, next: LayerVia, c: usize)
        requires
            s.unreached_max(board),
            Self::updated(s, t, board, next, c),
        ensures
            t.unreached_max(board),
    {
        reveal(UniformCostSearch::unreached_max);
        assert forall|n: LayerVia| board.contains(n.via) && !t.reached(board, n) implies #[trigger] t.cost(
            board,
            n,
        ) == usize::MAX by {
            assert(n != next);
            assert(t.in_frontier(board, n) == s.in_frontier(board, n));
            assert(t.explored(board, n) == s.explored(board, n));
            assert(s.cost(board, n) == usize::MAX);
        }
    }

    proof fn lemma_update_bounded(s: Self, t: Self, g: Graph, next: LayerVia, c: usize)
        requires
            s.bounded(g),
            Self::updated(s, t, g.board(), next, c),
            c + s.room(g) <= Self::limit(g),
        ensures
            t.bounded(g),
    {
        reveal(UniformCostSearch::bounded);
        let board = g.board();
        assert forall|n: LayerVia| board.contains(n.via) && t.reached(board, n) implies (#[trigger] t.cost(
            board,
            n,
        )) + t.room(g) <= Self::limit(g) by {
            if n != next {
                assert(t.in_frontier(board, n) == s.in_frontier(board, n));
                assert(t.explored(board, n) == s.explored(board, n));
                assert(s.cost(board, n) + s.room(g) <= Self::limit(g));
            }
        }
    }

    proof fn lemma_update_preds(s: Self, t: Self, g: Graph, cur: LayerVia, next: LayerVia, c: usize)
        requires
            s.has_preds(g),
            Self::updated(s, t, g.board(), next, c),
            g.board().contains(cur.via),
            s.explored(g.board(), cur),
            t.cost(g.board(), next) == s.cost(g.board(), next) || (g.step_cost(cur, next).is_some() && c
                == s.cost(g.board(), cur) + g.step_cost(cur, next).unwrap()),
            s.reached(g.board(), next) || (g.step_cost(cur, next).is_some() && c == s.cost(g.board(), cur)
                + g.step_cost(cur, next).unwrap()),
        ensures
            t.has_preds(g),
    {
        reveal(UniformCostSearch::has_preds);
        let board = g.board();
        assert(cur != next);
        assert(t.cost(board, cur) == s.cost(board, cur));
        assert(t.explored(board, cur) == s.explored(board, cur));
        assert forall|n: LayerVia|
            board.contains(n.via) && #[trigger] t.reached(board, n) && n != g.start_node() implies exists|
            p: LayerVia,
        | #[trigger] t.is_pred(g, p, n) by {
            if n == next && g.step_cost(cur, next).is_some() && c == s.cost(board, cur) + g.step_cost(
                cur,
                next,
            ).unwrap() {
                assert(t.is_pred(g, cur, n));
            } else {
                if n != next {
                    assert(t.in_frontier(board, n) == s.in_frontier(board, n));
                    assert(t.explored(board, n) == s.explored(board, n));
                    assert(t.cost(board, n) == s.cost(board, n));
                }
                assert(s.reached(board, n));
                let p = choose|p: LayerVia| #[trigger] s.is_pred(g, p, n);
                assert(s.is_pred(g, p, n));
                assert(p != next);
                assert(t.cost(board, p) == s.cost(board, p));
                assert(t.explored(board, p) == s.explored(board, p));
                assert(t.is_pred(g, p, n));
            }
        }
    }

    proof fn lemma_update_ordered(s: Self, t: Self, board: Board, cur: LayerVia, next: LayerVia, c: usize)
        requires
            s.ordered(board),
            s.tops(board, cur),
            board.contains(cur.via),
            Self::updated(s, t, board, next, c),
            c >= s.cost(board, cur),
        ensures
            t.ordered(board),
            t.tops(board, cur),
    {
        reveal(UniformCostSearch::ordered);
        reveal(UniformCostSearch::tops);
        assert forall|u: LayerVia, f: LayerVia|
            board.contains(u.via) && board.contains(f.via) && #[trigger] t.explored(board, u)
                && #[trigger] t.in_frontier(board, f) implies t.cost(board, u) <= t.cost(board, f) by {
            assert(u != next);
            assert(t.explored(board, u) == s.explored(board, u));
            assert(t.cost(board, u) == s.cost(board, u));
            if f != next {
                assert(t.in_frontier(board, f) == s.in_frontier(board, f));
                assert(t.cost(board, f) == s.cost(board, f));
            }
        }
        assert forall|x: LayerVia| board.contains(x.via) && #[trigger] t.explored(board, x) implies t.cost(
            board,
            x,
        ) <= t.cost(board, cur) by {
            assert(x != next);
            assert(t.explored(board, x) == s.explored(board, x));
            assert(t.cost(board, x) == s.cost(board, x));
            if cur != next {
                assert(t.cost(board, cur) == s.cost(board, cur));
            }
        }
    }

    proof fn lemma_update_closed(s: Self, t: Self, g: Graph, skip: Option<LayerVia>, next: LayerVia, c: usize)
        requires
            s.closed_except(g, skip),
            g.wf(),
            Self::updated(s, t, g.board(), next, c),
        ensures
            t.closed_except(g, skip),
    {
        reveal(UniformCostSearch::closed_except);
        let board = g.board();
        assert forall|u: LayerVia, v: LayerVia|
            board.contains(u.via) && t.explored(board, u) && Some(u) != skip && (#[trigger] g.step_cost(
                u,
                v,
            )).is_some() implies t.settled(g, u, v) by {
            assert(u != next);
            assert(t.explored(board, u) == s.explored(board, u));
            assert(t.cost(board, u) == s.cost(board, u));
            assert(s.settled(g, u, v));
            assert(board.contains(v.via));
            if v != next {
                assert(t.in_frontier(board, v) == s.in_frontier(board, v));
                assert(t.explored(board, v) == s.explored(board, v));
                assert(t.cost(board, v) == s.cost(board, v));
            }
        }
    }

    /// The tables after `next` has been put into the frontier, or has had its cost lowered
    /// there, on account of the step from `cur`, still are as a search keeps them.
    proof fn lemma_after_update(s: Self, t: Self, g: Graph, end: LayerVia, cur: LayerVia, next: LayerVia, c: usize)
        requires
            s.inv_open(g, end, cur),
            Self::updated(s, t, g.board(), next, c),
            g.step_cost(cur, next).is_some(),
            c == s.cost(g.board(), cur) + g.step_cost(cur, next).unwrap(),
            s.in_frontier(g.board(), next) ==> c < s.cost(g.board(), next),
        ensures
            t.inv_open(g, end, cur),
    {
        let board = g.board();
        let w = g.step_cost(cur, next).unwrap();
        assert(w <= g.settings.spec_max_step_cost());
        assert(cur != next);
        assert(t.cost(board, cur) == s.cost(board, cur));
        assert(t.explored(board, cur) == s.explored(board, cur));
        Self::lemma_update_frontier(s, t, board, next, c);
        Self::lemma_update_apart(s, t, board, next, c);
        Self::lemma_update_unreached(s, t, board, next, c);
        Self::lemma_update_bounded(s, t, g, next, c);
        Self::lemma_update_preds(s, t, g, cur, next, c);
        Self::lemma_update_ordered(s, t, board, cur, next, c);
        Self::lemma_update_closed(s, t, g, Some(cur), next, c);
        assert(t.cost(board, g.start_node()) == 0) by {
            if g.start_node() != next {
                assert(t.cost(board, g.start_node()) == s.cost(board, g.start_node()));
            }
        }
        assert(t.reached(board, g.start_node())) by {
            if g.start_node() != next {
                assert(t.in_frontier(board, g.start_node()) == s.in_frontier(board, g.start_node()));
                assert(t.explored(board, g.start_node()) == s.explored(board, g.start_node()));
            }
        }
        assert(!t.explored(board, end)) by {
            if end != next {
                assert(t.explored(board, end) == s.explored(board, end));
            }
        }
    }

    /// What `t` records is reached at no higher cost than in `s`.
    proof fn lemma_update_lowers(s: Self, t: Self, board: Board, next: LayerVia, c: usize)
        requires
            Self::updated(s, t, board, next, c),
        ensures
            Self::not_worse(s, t, board),
    {
        assert forall|n: LayerVia| board.contains(n.via) implies #[trigger] t.cost(board, n) <= s.cost(
            board,
            n,
        ) by {}
        assert forall|n: LayerVia| board.contains(n.via) && s.reached(board, n) implies #[trigger] t.reached(
            board,
            n,
        ) by {
            if n != next {
                assert(t.in_frontier(board, n) == s.in_frontier(board, n));
                assert(t.explored(board, n) == s.explored(board, n));
            }
        }
    }

    /// Whether `t` has reached what `s` has reached, at no higher cost.
    pub open spec fn not_worse(s: Self, t: Self, board: Board) -> bool {
        &&& forall|n: LayerVia| board.contains(n.via) ==> #[trigger] t.cost(board, n) <= s.cost(board, n)
        &&& forall|n: LayerVia|
            board.contains(n.via) && s.reached(board, n) ==> #[trigger] t.reached(board, n)
    }

    proof fn lemma_settled_persists(s: Self, t: Self, g: Graph, cur: LayerVia, v: LayerVia)
        requires
            s.settled(g, cur, v),
            g.wf(),
            t.cost(g.board(), cur) == s.cost(g.board(), cur),
            Self::not_worse(s, t, g.board()),
        ensures
            t.settled(g, cur, v),
    {
        if g.step_cost(cur, v).is_some() {
            assert(g.board().contains(v.via));
            assert(t.reached(g.board(), v));
            assert(t.cost(g.board(), v) <= s.cost(g.board(), v));
        }
    }

    proof fn lemma_pop_frontier(s: Self, t: Self, board: Board, k: int)
        requires
            s.frontier_ok(board),
            Self::popped(s, t, board, k),
        ensures
            t.frontier_ok(board),
    {
        reveal(UniformCostSearch::frontier_ok);
        let node = s.frontier_pri@[k];
        assert forall|j: int| 0 <= j < t.frontier_pri@.len() implies board.contains(
            (#[trigger] t.frontier_pri@[j]).via,
        ) && t.in_frontier(board, t.frontier_pri@[j]) by {
            let j0 = if j < k { j } else { j + 1 };
            let n = s.frontier_pri@[j0];
            assert(t.frontier_pri@[j] == n);
            assert(s.in_frontier(board, n));
            if j0 < k {
                assert(s.frontier_pri@[j0] != s.frontier_pri@[k]);
            } else {
                assert(s.frontier_pri@[k] != s.frontier_pri@[j0]);
            }
            assert(t.in_frontier(board, n) == s.in_frontier(board, n));
        }
        assert forall|n: LayerVia| board.contains(n.via) && #[trigger] t.in_frontier(
            board,
            n,
        ) implies t.frontier_pri@.contains(n) by {
            assert(n != node);
            assert(t.in_frontier(board, n) == s.in_frontier(board, n));
            assert(s.frontier_pri@.contains(n));
            let j0 = choose|j: int| 0 <= j < s.frontier_pri@.len() && s.frontier_pri@[j] == n;
            let j = if j0 < k { j0 } else { j0 - 1 };
            assert(t.frontier_pri@[j] == n);
        }
        assert forall|i: int, j: int| 0 <= i < j < t.frontier_pri@.len() implies #[trigger] t.frontier_pri@[i]
            != #[trigger] t.frontier_pri@[j] by {
            let i0 = if i < k { i } else { i + 1 };
            let j0 = if j < k { j } else { j + 1 };
            assert(s.frontier_pri@[i0] != s.frontier_pri@[j0]);
        }
    }

    proof fn lemma_pop_apart(s: Self, t: Self, board: Board, k: int)
        requires
            s.apart(board),
            s.unreached_max(board),
            Self::popped(s, t, board, k),
        ensures
            t.apart(board),
            t.unreached_max(board),
    {
        reveal(UniformCostSearch::apart);
        reveal(UniformCostSearch::unreached_max);
        let node = s.frontier_pri@[k];
        assert forall|n: LayerVia| board.contains(n.via) implies !(#[trigger] t.in_frontier(board, n)
            && t.explored(board, n)) by {
            if n != node {
                assert(t.in_frontier(board, n) == s.in_frontier(board, n));
                assert(t.explored(board, n) == s.explored(board, n));
            }
        }
        assert forall|n: LayerVia| board.contains(n.via) && !t.reached(board, n) implies #[trigger] t.cost(
            board,
            n,
        ) == usize::MAX by {
            assert(n != node);
            assert(t.in_frontier(board, n) == s.in_frontier(board, n));
            assert(t.explored(board, n) == s.explored(board, n));
            assert(s.cost(board, n) == usize::MAX);
        }
    }

    proof fn lemma_pop_bounded(s: Self, t: Self, g: Graph, k: int)
        requires
            s.bounded(g),
            g.wf(),
            Self::popped(s, t, g.board(), k),
        ensures
            t.bounded(g),
            t.cost(g.board(), s.frontier_pri@[k]) + t.room(g) + g.settings.spec_max_step_cost()
                <= Self::limit(g),
    {
        reveal(UniformCostSearch::bounded);
        let board = g.board();
        let node = s.frontier_pri@[k];
        let max = g.settings.spec_max_step_cost();
        let u1 = unmarked_count(t.explored_set@) as int;
        assert((u1 + 1) * max == u1 * max + max) by (nonlinear_arith);
        assert(s.room(g) == t.room(g) + max);
        assert forall|n: LayerVia| board.contains(n.via) && t.reached(board, n) implies (#[trigger] t.cost(
            board,
            n,
        )) + t.room(g) <= Self::limit(g) by {
            if n != node {
                assert(t.in_frontier(board, n) == s.in_frontier(board, n));
                assert(t.explored(board, n) == s.explored(board, n));
                assert(t.cost(board, n) == s.cost(board, n));
            }
            assert(s.reached(board, n));
            assert(s.cost(board, n) + s.room(g) <= Self::limit(g));
        }
        assert(s.reached(board, node));
        assert(s.cost(board, node) + s.room(g) <= Self::limit(g));
    }

    proof fn lemma_pop_preds(s: Self, t: Self, g: Graph, k: int)
        requires
            s.has_preds(g),
            Self::popped(s, t, g.board(), k),
        ensures
            t.has_preds(g),
    {
        reveal(UniformCostSearch::has_preds);
        let board = g.board();
        let node = s.frontier_pri@[k];
        assert forall|n: LayerVia|
            board.contains(n.via) && #[trigger] t.reached(board, n) && n != g.start_node() implies exists|
            p: LayerVia,
        | #[trigger] t.is_pred(g, p, n) by {
            if n != node {
                assert(t.in_frontier(board, n) == s.in_frontier(board, n));
                assert(t.explored(board, n) == s.explored(board, n));
                assert(t.cost(board, n) == s.cost(board, n));
            }
            assert(s.reached(board, n));
            let p = choose|p: LayerVia| #[trigger] s.is_pred(g, p, n);
            assert(s.is_pred(g, p, n));
            if p != node {
                assert(t.explored(board, p) == s.explored(board, p));
                assert(t.cost(board, p) == s.cost(board, p));
            }
            assert(t.is_pred(g, p, n));
        }
    }

    proof fn lemma_pop_ordered(s: Self, t: Self, board: Board, k: int)
        requires
            s.ordered(board),
            s.frontier_ok(board),
            Self::popped(s, t, board, k),
            forall|j: int|
                0 <= j < s.frontier_pri@.len() ==> s.cost(board, s.frontier_pri@[k]) <= s.cost(
                    board,
                    #[trigger] s.frontier_pri@[j],
                ),
        ensures
            t.ordered(board),
            t.tops(board, s.frontier_pri@[k]),
    {
        reveal(UniformCostSearch::ordered);
        reveal(UniformCostSearch::tops);
        reveal(UniformCostSearch::frontier_ok);
        let node = s.frontier_pri@[k];
        assert forall|u: LayerVia, f: LayerVia|
            board.contains(u.via) && board.contains(f.via) && #[trigger] t.explored(board, u)
                && #[trigger] t.in_frontier(board, f) implies t.cost(board, u) <= t.cost(board, f) by {
            assert(f != node);
            assert(t.in_frontier(board, f) == s.in_frontier(board, f));
            assert(t.cost(board, f) == s.cost(board, f));
            assert(s.frontier_pri@.contains(f));
            if u != node {
                assert(t.explored(board, u) == s.explored(board, u));
                assert(t.cost(board, u) == s.cost(board, u));
            }
        }
        assert forall|x: LayerVia| board.contains(x.via) && #[trigger] t.explored(board, x) implies t.cost(
            board,
            x,
        ) <= t.cost(board, node) by {
            if x != node {
                assert(t.explored(board, x) == s.explored(board, x));
                assert(t.cost(board, x) == s.cost(board, x));
                assert(s.explored(board, x) && s.in_frontier(board, node));
            }
        }
    }

    proof fn lemma_pop_closed(s: Self, t: Self, g: Graph, k: int)
        requires
            s.closed_except(g, None),
            g.wf(),
            Self::popped(s, t, g.board(), k),
        ensures
            t.closed_except(g, Some(s.frontier_pri@[k])),
    {
        reveal(UniformCostSearch::closed_except);
        let board = g.board();
        let node = s.frontier_pri@[k];
        assert forall|u: LayerVia, v: LayerVia|
            board.contains(u.via) && t.explored(board, u) && Some(u) != Some(node) && (#[trigger] g.step_cost(
                u,
                v,
            )).is_some() implies t.settled(g, u, v) by {
            assert(t.explored(board, u) == s.explored(board, u));
            assert(t.cost(board, u) == s.cost(board, u));
            assert(s.settled(g, u, v));
            assert(board.contains(v.via));
            if v != node {
                assert(t.in_frontier(board, v) == s.in_frontier(board, v));
                assert(t.explored(board, v) == s.explored(board, v));
                assert(t.cost(board, v) == s.cost(board, v));
            }
        }
    }

    /// The tables after the cheapest node of the frontier has been moved to the explored
    /// nodes are ready for the steps that leave it.
    proof fn lemma_after_pop(s: Self, t: Self, g: Graph, end: LayerVia, k: int)
        requires
            s.inv(g, end),
            Self::popped(s, t, g.board(), k),
            s.frontier_pri@[k] != end,
            forall|j: int|
                0 <= j < s.frontier_pri@.len() ==> s.cost(g.board(), s.frontier_pri@[k]) <= s.cost(
                    g.board(),
                    #[trigger] s.frontier_pri@[j],
                ),
        ensures
            t.inv_open(g, end, s.frontier_pri@[k]),
    {
        let board = g.board();
        let node = s.frontier_pri@[k];
        Self::lemma_pop_frontier(s, t, board, k);
        Self::lemma_pop_apart(s, t, board, k);
        Self::lemma_pop_bounded(s, t, g, k);
        Self::lemma_pop_preds(s, t, g, k);
        Self::lemma_pop_ordered(s, t, board, k);
        Self::lemma_pop_closed(s, t, g, k);
        assert(t.cost(board, g.start_node()) == 0) by {
            if g.start_node() != node {
                assert(t.cost(board, g.start_node()) == s.cost(board, g.start_node()));
            }
        }
        assert(t.reached(board, g.start_node())) by {
            if g.start_node() != node {
                assert(t.in_frontier(board, g.start_node()) == s.in_frontier(board, g.start_node()));
                assert(t.explored(board, g.start_node()) == s.explored(board, g.start_node()));
            }
        }
        assert(!t.explored(board, end)) by {
            assert(t.explored(board, end) == s.explored(board, end));
        }
    }

    /// The tables in which only the start has been reached, at no cost, are as a search
    /// keeps them.
    proof fn lemma_initial(t: Self, g: Graph, end: LayerVia)
        requires
            g.wf(),
            t.sized(g.board()),
            g.board().contains(end.via),
            t.frontier_pri@ == seq![g.start_node()],
            t.cost(g.board(), g.start_node()) == 0,
            t.in_frontier(g.board(), g.start_node()),
            forall|n: LayerVia|
                g.board().contains(n.via) && n != g.start_node() ==> #[trigger] t.cost(g.board(), n)
                    == usize::MAX,
            forall|n: LayerVia|
                g.board().contains(n.via) && n != g.start_node() ==> !(#[trigger] t.in_frontier(
                    g.board(),
                    n,
                )),
            forall|n: LayerVia| g.board().contains(n.via) ==> !(#[trigger] t.explored(g.board(), n)),
            unmarked_count(t.explored_set@) == 2 * g.board().spec_size(),
        ensures
            t.inv(g, end),
    {
        reveal(UniformCostSearch::frontier_ok);
        reveal(UniformCostSearch::apart);
        reveal(UniformCostSearch::unreached_max);
        reveal(UniformCostSearch::bounded);
        reveal(UniformCostSearch::has_preds);
        reveal(UniformCostSearch::ordered);
        reveal(UniformCostSearch::closed_except);
        let board = g.board();
        let max = g.settings.spec_max_step_cost();
        assert(t.room(g) == Self::limit(g)) by (nonlinear_arith)
            requires
                t.room(g) == unmarked_count(t.explored_set@) * max,
                unmarked_count(t.explored_set@) == 2 * board.spec_size(),
                Self::limit(g) == 2 * board.spec_size() * max,
        ;
        assert forall|n: LayerVia| board.contains(n.via) && #[trigger] t.in_frontier(
            board,
            n,
        ) implies t.frontier_pri@.contains(n) by {
            assert(t.frontier_pri@[0] == g.start_node());
        }
        assert forall|n: LayerVia|
            board.contains(n.via) && #[trigger] t.reached(board, n) && n != g.start_node() implies exists|
            p: LayerVia,
        | #[trigger] t.is_pred(g, p, n) by {
            assert(!t.in_frontier(board, n));
            assert(!t.explored(board, n));
        }
        assert forall|n: LayerVia| board.contains(n.via) && t.reached(board, n) implies (#[trigger] t.cost(
            board,
            n,
        )) + t.room(g) <= Self::limit(g) by {
            assert(!t.explored(board, n));
            if n != g.start_node() {
                assert(!t.in_frontier(board, n));
            }
        }
    }

    /// The place in the frontier list of the entry that comes before all others.
    fn min_frontier_idx(&self, board: Board) -> (k: usize)
        requires
            self.sized(board),
            self.frontier_ok(board),
            self.frontier_pri@.len() > 0,
        ensures
            k < self.frontier_pri@.len(),
            forall|j: int|
                0 <= j < self.frontier_pri@.len() && j != k ==> comes_before(
                    self.entry(board, k as int),
                    #[trigger] self.entry(board, j),
                ),
            forall|j: int|
                0 <= j < self.frontier_pri@.len() ==> self.cost(board, self.frontier_pri@[k as int])
                    <= self.cost(board, #[trigger] self.frontier_pri@[j]),
    {
        proof {
            reveal(UniformCostSearch::frontier_ok);
        }
        let n = self.frontier_pri.len();
        let mut k: usize = 0;
        let mut best = LayerCostVia::from_layer_via(self.frontier_pri[0], self.get_cost(board, self.frontier_pri[0]));
        let mut j: usize = 1;
        while j < n
            invariant
                1 <= j <= n,
                n == self.frontier_pri@.len(),
                k < j,
                self.sized(board),
                forall|i: int| 0 <= i < n ==> board.contains((#[trigger] self.frontier_pri@[i]).via),
                forall|i: int, m: int|
                    0 <= i < m < n ==> #[trigger] self.frontier_pri@[i] != #[trigger] self.frontier_pri@[m],
                best == self.entry(board, k as int),
                forall|i: int| 0 <= i < j && i != k ==> comes_before(best, #[trigger] self.entry(board, i)),
            decreases n - j,
        {
            let node = self.frontier_pri[j];
            let candidate = LayerCostVia::from_layer_via(node, self.get_cost(board, node));
            proof {
                assert(self.frontier_pri@[k as int] != self.frontier_pri@[j as int]);
            }
            if candidate.is_before(&best) {
                proof {
                    assert forall|i: int| 0 <= i < j + 1 && i != j implies comes_before(
                        candidate,
                        #[trigger] self.entry(board, i),
                    ) by {
                        if i != k {
                            assert(comes_before(best, self.entry(board, i)));
                        }
                    }
                }
                k = j;
                best = candidate;
            }
            j += 1;
        }
        proof {
            assert forall|i: int| 0 <= i < self.frontier_pri@.len() implies self.cost(
                board,
                self.frontier_pri@[k as int],
            ) <= self.cost(board, #[trigger] self.frontier_pri@[i]) by {
                if i != k {
                    assert(comes_before(best, self.entry(board, i)));
                }
            }
        }
        k
    }

    /// Takes note that `next_node` can be reached from `cur_node` by a step that costs
    /// `step_cost`: a node that was not reached yet joins the frontier, and one that waits
    /// there gets the lower of the two costs.
    fn explore_frontier(
        &mut self,
        board: Board,
        Ghost(g): Ghost<Graph>,
        Ghost(end): Ghost<LayerVia>,
        cur_node: LayerVia,
        next_node: LayerVia,
        step_cost: usize,
    )
        requires
            old(self).inv_open(g, end, cur_node),
            g.board() == board,
            g.step_cost(cur_node, next_node) == Some(step_cost),
        ensures
            final(self).inv_open(g, end, cur_node),
            final(self).settled(g, cur_node, next_node),
            final(self).explored_set == old(self).explored_set,
            final(self).cost(board, cur_node) == old(self).cost(board, cur_node),
            Self::not_worse(*old(self), *final(self), board),
    {
        let ghost s = *self;
        proof {
            assert(board.contains(next_node.via));
            assert(step_cost <= g.settings.spec_max_step_cost());
            assert(s.room(g) >= 0) by (nonlinear_arith)
                requires
                    s.room(g) == unmarked_count(s.explored_set@) * g.settings.spec_max_step_cost(),
                    g.settings.spec_max_step_cost() >= 0,
            ;
        }
        if self.is_explored(board, next_node) {
            proof {
                reveal(UniformCostSearch::tops);
            }
            return ;
        }
        let next_node_cost = self.get_cost(board, cur_node) + step_cost;
        if !self.is_in_frontier(board, next_node) {
            proof {
                reveal(UniformCostSearch::unreached_max);
                assert(!s.reached(board, next_node));
                assert(s.cost(board, next_node) == usize::MAX);
            }
            self.set_in_frontier(board, next_node, true);
            let ghost marked = *self;
            self.set_cost(board, next_node, next_node_cost);
            let ghost priced = *self;
            self.frontier_pri.push(next_node);
            proof {
                let t = *self;
                assert forall|n: LayerVia| board.contains(n.via) && n != next_node implies #[trigger] t.cost(
                    board,
                    n,
                ) == s.cost(board, n) by {
                    assert(priced.cost(board, n) == marked.cost(board, n));
                }
                assert forall|n: LayerVia|
                    board.contains(n.via) && n != next_node implies #[trigger] t.in_frontier(board, n)
                    == s.in_frontier(board, n) by {
                    assert(marked.in_frontier(board, n) == s.in_frontier(board, n));
                }
                assert(Self::updated(s, t, board, next_node, next_node_cost));
                Self::lemma_after_update(s, t, g, end, cur_node, next_node, next_node_cost);
                Self::lemma_update_lowers(s, t, board, next_node, next_node_cost);
            }
        } else {
            let frontier_cost = self.get_cost(board, next_node);
            if frontier_cost > next_node_cost {
                self.set_cost(board, next_node, next_node_cost);
                proof {
                    let t = *self;
                    assert(Self::updated(s, t, board, next_node, next_node_cost));
                    Self::lemma_after_update(s, t, g, end, cur_node, next_node, next_node_cost);
                    Self::lemma_update_lowers(s, t, board, next_node, next_node_cost);
                }
            }
        }
    }

    /// Takes note of the unit step from `cur_node` to `next_node`, if the route may enter
    /// `next_node`.
    fn explore_neighbour(
        &mut self,
        board: Board,
        nets: &Nets,
        router: &Router,
        Ghost(g): Ghost<Graph>,
        Ghost(end): Ghost<LayerVia>,
        cur_node: LayerVia,
        next_node: LayerVia,
        start_end_via: StartEndVia,
        step_cost: usize,
    )
        requires
            old(self).inv_open(g, end, cur_node),
            g.board() == board,
            g.router == *router,
            g.nets == *nets,
            g.start == start_end_via.start,
            crate::graph::unit_step(cur_node, next_node),
            step_cost == (if cur_node.is_wire_layer && next_node.is_wire_layer {
                g.settings.wire_cost
            } else if !cur_node.is_wire_layer && !next_node.is_wire_layer {
                g.settings.strip_cost
            } else {
                g.settings.via_cost
            }),
        ensures
            final(self).inv_open(g, end, cur_node),
            final(self).settled(g, cur_node, next_node),
            final(self).explored_set == old(self).explored_set,
            final(self).cost(board, cur_node) == old(self).cost(board, cur_node),
            Self::not_worse(*old(self), *final(self), board),
    {
        if router.is_available(board, nets, next_node, start_end_via.start) {
            self.explore_frontier(board, Ghost(g), Ghost(end), cur_node, next_node, step_cost);
        }
    }

    /// Once every step that leaves `cur` has been taken note of, the round is over.
    proof fn lemma_round_over(t: Self, g: Graph, end: LayerVia, cur: LayerVia)
        requires
            t.inv_open(g, end, cur),
            forall|v: LayerVia| (#[trigger] g.step_cost(cur, v)).is_some() ==> t.settled(g, cur, v),
        ensures
            t.inv(g, end),
    {
        reveal(UniformCostSearch::closed_except);
    }

    /// Takes note of every step that leaves the wire-layer node `node`.
    fn explore_wire_node(
        &mut self,
        board: Board,
        layout: &Layout,
        nets: &Nets,
        router: &Router,
        Ghost(g): Ghost<Graph>,
        Ghost(end): Ghost<LayerVia>,
        layer_node: LayerVia,
        start_end_via: StartEndVia,
    )
        requires
            old(self).inv_open(g, end, layer_node),
            g == search_graph(router, nets, layout.settings, start_end_via.start),
            g.board() == board,
            layer_node.is_wire_layer,
        ensures
            final(self).inv(g, end),
            final(self).explored_set == old(self).explored_set,
    {
        let ghost left = LayerVia {
            via: Via { x: (layer_node.via.x - 1) as usize, y: layer_node.via.y },
            is_wire_layer: true,
        };
        let ghost right = LayerVia {
            via: Via { x: (layer_node.via.x + 1) as usize, y: layer_node.via.y },
            is_wire_layer: true,
        };
        let ghost below = LayerVia { via: layer_node.via, is_wire_layer: false };
        if layer_node.via.x > 0 {
            let next = self.step_left(layer_node);
            self.explore_neighbour(
                board,
                nets,
                router,
                Ghost(g),
                Ghost(end),
                layer_node,
                next,
                start_end_via,
                layout.settings.wire_cost,
            );
        }
        let ghost after_left = *self;
        if layer_node.via.x < board.w - 1 {
            let next = self.step_right(layer_node);
            self.explore_neighbour(
                board,
                nets,
                router,
                Ghost(g),
                Ghost(end),
                layer_node,
                next,
                start_end_via,
                layout.settings.wire_cost,
            );
        }
        let ghost after_right = *self;
        let next = self.step_to_strip(layer_node);
        self.explore_neighbour(
            board,
            nets,
            router,
            Ghost(g),
            Ghost(end),
            layer_node,
            next,
            start_end_via,
            layout.settings.via_cost,
        );
        proof {
            let t = *self;
            if layer_node.via.x > 0 {
                if layer_node.via.x < board.w - 1 {
                    Self::lemma_settled_persists(after_left, after_right, g, layer_node, left);
                }
                Self::lemma_settled_persists(after_right, t, g, layer_node, left);
            }
            if layer_node.via.x < board.w - 1 {
                Self::lemma_settled_persists(after_right, t, g, layer_node, right);
            }
            assert forall|v: LayerVia| (#[trigger] g.step_cost(layer_node, v)).is_some() implies t.settled(
                g,
                layer_node,
                v,
            ) by {
                assert(g.plain_edge(layer_node, v));
                assert(board.contains(v.via));
                if v.is_wire_layer {
                    if v.via.x + 1 == layer_node.via.x {
                        assert(v == left);
                    } else {
                        assert(v == right);
                    }
                } else {
                    assert(v == below);
                }
            }
            Self::lemma_round_over(t, g, end, layer_node);
        }
    }

    /// Takes note of every step that leaves the strip-layer node `node`, the one through
    /// a committed jumper included.
    fn explore_strip_node(
        &mut self,
        board: Board,
        layout: &Layout,
        nets: &Nets,
        router: &Router,
        Ghost(g): Ghost<Graph>,
        Ghost(end): Ghost<LayerVia>,
        layer_node: LayerVia,
        start_end_via: StartEndVia,
    )
        requires
            old(self).inv_open(g, end, layer_node),
            g == search_graph(router, nets, layout.settings, start_end_via.start),
            g.board() == board,
            !layer_node.is_wire_layer,
        ensures
            final(self).inv(g, end),
            final(self).explored_set == old(self).explored_set,
    {
        let ghost up = LayerVia {
            via: Via { x: layer_node.via.x, y: (layer_node.via.y - 1) as usize },
            is_wire_layer: false,
        };
        let ghost down = LayerVia {
            via: Via { x: layer_node.via.x, y: (layer_node.via.y + 1) as usize },
            is_wire_layer: false,
        };
        let ghost above = LayerVia { via: layer_node.via, is_wire_layer: true };
        if layer_node.via.y > 0 {
            let next = self.step_up(layer_node);
            self.explore_neighbour(
                board,
                nets,
                router,
                Ghost(g),
                Ghost(end),
                layer_node,
                next,
                start_end_via,
                layout.settings.strip_cost,
            );
        }
        let ghost after_up = *self;
        if layer_node.via.y < board.h - 1 {
            let next = self.step_down(layer_node);
            self.explore_neighbour(
                board,
                nets,
                router,
                Ghost(g),
                Ghost(end),
                layer_node,
                next,
                start_end_via,
                layout.settings.strip_cost,
            );
        }
        let ghost after_down = *self;
        let next = self.step_to_wire(layer_node);
        self.explore_neighbour(
            board,
            nets,
            router,
            Ghost(g),
            Ghost(end),
            layer_node,
            next,
            start_end_via,
            layout.settings.via_cost,
        );
        let ghost after_wire = *self;
        // A committed jumper that ends here leads to the strip under its far end.
        let wire_to_via = router.wire_to_via(board, layer_node.via);
        let ghost far = LayerVia { via: wire_to_via.via, is_wire_layer: false };
        let mut jumped = false;
        if wire_to_via.is_valid && board.has(wire_to_via.via) && wire_to_via.via.y == layer_node.via.y
            && wire_to_via.via.x != layer_node.via.x {
            let back = router.wire_to_via(board, wire_to_via.via);
            if back.is_valid && back.via == layer_node.via {
                jumped = true;
                assert(g.jump_edge(layer_node, far));
                assert(!g.plain_edge(layer_node, far));
                self.explore_frontier(
                    board,
                    Ghost(g),
                    Ghost(end),
                    layer_node,
                    LayerVia { via: wire_to_via.via, is_wire_layer: false },
                    layout.settings.wire_cost,
                );
            }
        }
        proof {
            let t = *self;
            assert(!jumped ==> t == after_wire);
            if layer_node.via.y > 0 {
                if layer_node.via.y < board.h - 1 {
                    Self::lemma_settled_persists(after_up, after_down, g, layer_node, up);
                }
                Self::lemma_settled_persists(after_down, after_wire, g, layer_node, up);
                if jumped {
                    Self::lemma_settled_persists(after_wire, t, g, layer_node, up);
                }
            }
            if layer_node.via.y < board.h - 1 {
                Self::lemma_settled_persists(after_down, after_wire, g, layer_node, down);
                if jumped {
                    Self::lemma_settled_persists(after_wire, t, g, layer_node, down);
                }
            }
            if jumped {
                Self::lemma_settled_persists(after_wire, t, g, layer_node, above);
            }
            assert forall|v: LayerVia| (#[trigger] g.step_cost(layer_node, v)).is_some() implies t.settled(
                g,
                layer_node,
                v,
            ) by {
                assert(board.contains(v.via));
                if g.plain_edge(layer_node, v) {
                    if v.is_wire_layer {
                        assert(v == above);
                    } else if v.via.y + 1 == layer_node.via.y {
                        assert(v == up);
                    } else {
                        assert(v == down);
                    }
                } else {
                    assert(g.jump_edge(layer_node, v));
                    assert(v == far);
                    assert(jumped);
                }
            }
            Self::lemma_round_over(t, g, end, layer_node);
        }
    }

    /// Spreads from the start of the connection until its end is the cheapest node of
    /// the frontier, or until nothing is left to explore. Returns whether the end was
    /// found.
    fn find_costs(
        &mut self,
        board: Board,
        layout: &Layout,
        nets: &Nets,
        router: &Router,
        start_end_via: StartEndVia,
    ) -> (found: bool)
        requires
            old(self).is_fresh(board),
            router.board == board,
            search_graph(router, nets, layout.settings, start_end_via.start).wf(),
            board.contains(start_end_via.end),
        ensures
            final(self).sized(board),
            found ==> final(self).done(
                search_graph(router, nets, layout.settings, start_end_via.start),
                LayerVia { via: start_end_via.end, is_wire_layer: false },
            ),
            !found ==> !search_graph(router, nets, layout.settings, start_end_via.start).reachable(
                LayerVia { via: start_end_via.start, is_wire_layer: false },
                LayerVia { via: start_end_via.end, is_wire_layer: false },
            ),
    {
        let ghost g = search_graph(router, nets, layout.settings, start_end_via.start);
        let start = LayerVia { via: start_end_via.start, is_wire_layer: false };
        let end = LayerVia { via: start_end_via.end, is_wire_layer: false };
        let ghost fresh = *self;
        self.set_cost(board, start, 0);
        let ghost priced = *self;
        self.frontier_pri.push(start);
        self.set_in_frontier(board, start, true);
        proof {
            let t = *self;
            lemma_unmarked_fresh(t.explored_set@);
            assert forall|n: LayerVia| board.contains(n.via) implies !(#[trigger] t.explored(board, n)) by {
                board.lemma_idx(n.via);
            }
            assert forall|n: LayerVia| board.contains(n.via) && n != start implies !(#[trigger] t.in_frontier(
                board,
                n,
            )) by {
                board.lemma_idx(n.via);
                assert(!fresh.in_frontier(board, n));
                assert(!priced.in_frontier(board, n));
            }
            assert forall|n: LayerVia| board.contains(n.via) && n != start implies #[trigger] t.cost(board, n)
                == usize::MAX by {
                board.lemma_idx(n.via);
                assert(fresh.cost(board, n) == usize::MAX);
                assert(priced.cost(board, n) == usize::MAX);
            }
            assert(t.frontier_pri@ =~= seq![start]);
            assert(t.cost(board, start) == 0) by {
                assert(priced.cost(board, start) == 0);
            }
            Self::lemma_initial(t, g, end);
        }
        while self.frontier_pri.len() > 0
            invariant
                self.inv(g, end),
                g == search_graph(router, nets, layout.settings, start_end_via.start),
                g.board() == board,
                start == g.start_node(),
                end == (LayerVia { via: start_end_via.end, is_wire_layer: false }),
            decreases unmarked_count(self.explored_set@),
        {
            let k = self.min_frontier_idx(board);
            let layer_node = self.frontier_pri[k];
            proof {
                reveal(UniformCostSearch::frontier_ok);
                reveal(UniformCostSearch::apart);
                assert(board.contains(layer_node.via));
                assert(self.in_frontier(board, layer_node));
                assert(!self.explored(board, layer_node));
            }
            if layer_node.is_target(end.via) {
                proof {
                    reveal(UniformCostSearch::end_is_least);
                    reveal(UniformCostSearch::unreached_max);
                    assert forall|x: LayerVia| board.contains(x.via) && !(#[trigger] self.explored(
                        board,
                        x,
                    )) implies self.cost(board, end) <= self.cost(board, x) by {
                        if self.in_frontier(board, x) {
                            assert(self.frontier_pri@.contains(x));
                        } else {
                            assert(!self.reached(board, x));
                            assert(self.cost(board, x) == usize::MAX);
                        }
                    }
                }
                return true;
            }
            let ghost s = *self;
            self.frontier_pri.remove(k);
            self.set_in_frontier(board, layer_node, false);
            let ghost unlisted = *self;
            self.set_explored(board, layer_node);
            proof {
                let t = *self;
                assert forall|n: LayerVia|
                    board.contains(n.via) && n != layer_node implies #[trigger] t.in_frontier(board, n)
                    == s.in_frontier(board, n) by {
                    assert(unlisted.in_frontier(board, n) == s.in_frontier(board, n));
                }
                assert forall|n: LayerVia| board.contains(n.via) && n != layer_node implies #[trigger] t.explored(
                    board,
                    n,
                ) == s.explored(board, n) by {
                    assert(unlisted.explored(board, n) == s.explored(board, n));
                }
                assert forall|n: LayerVia| board.contains(n.via) && n != layer_node implies #[trigger] t.cost(
                    board,
                    n,
                ) == s.cost(board, n) by {}
                assert(!t.in_frontier(board, layer_node)) by {
                    assert(!unlisted.in_frontier(board, layer_node));
                }
                assert(Self::popped(s, t, board, k as int));
                Self::lemma_after_pop(s, t, g, end, k as int);
            }
            if layer_node.is_wire_layer {
                self.explore_wire_node(
                    board,
                    layout,
                    nets,
                    router,
                    Ghost(g),
                    Ghost(end),
                    layer_node,
                    start_end_via,
                );
            } else {
                self.explore_strip_node(
                    board,
                    layout,
                    nets,
                    router,
                    Ghost(g),
                    Ghost(end),
                    layer_node,
                    start_end_via,
                );
            }
        }
        proof {
            assert forall|p: Seq<LayerVia>| !g.connects(p, start, end) by {
                if g.connects(p, start, end) {
                    assert(self.reached(board, start));
                    if self.in_frontier(board, start) {
                        reveal(UniformCostSearch::frontier_ok);
                        assert(self.frontier_pri@.contains(start));
                    }
                    self.lemma_closed(g, end, p);
                }
            }
        }
        false
    }

    /// Whether the cost of `q` and a step of cost `w` add up to `cur_cost`.
    fn steps_from(&self, board: Board, q: LayerVia, w: usize, cur_cost: usize) -> (r: bool)
        requires
            self.sized(board),
            board.contains(q.via),
        ensures
            r == (self.cost(board, q) + w == cur_cost),
    {
        let c = self.get_cost(board, q);
        c <= cur_cost && cur_cost - c == w
    }

    /// A node that was reached, other than the start, was reached from an explored node, at
    /// a cost below `usize::MAX`.
    proof fn lemma_pred_exists(&self, g: Graph, end: LayerVia, cur: LayerVia)
        requires
            self.done(g, end),
            g.board().contains(cur.via),
            self.reached(g.board(), cur),
            cur != g.start_node(),
        ensures
            exists|p: LayerVia| #[trigger] self.is_pred(g, p, cur),
            self.cost(g.board(), cur) < usize::MAX,
    {
        reveal(UniformCostSearch::has_preds);
        reveal(UniformCostSearch::bounded);
        assert(self.room(g) >= 0) by (nonlinear_arith)
            requires
                self.room(g) == unmarked_count(self.explored_set@) * g.settings.spec_max_step_cost(),
                g.settings.spec_max_step_cost() >= 0,
        ;
    }

    /// A node with a cost below `usize::MAX` was reached.
    proof fn lemma_cost_reached(&self, g: Graph, end: LayerVia, q: LayerVia)
        requires
            self.done(g, end),
            g.board().contains(q.via),
            self.cost(g.board(), q) < usize::MAX,
        ensures
            self.reached(g.board(), q),
    {
        reveal(UniformCostSearch::unreached_max);
    }

    /// The neighbour from which the route reaches the wire-layer node `cur`.
    fn find_pred_wire(
        &self,
        board: Board,
        layout: &Layout,
        nets: &Nets,
        router: &Router,
        Ghost(g): Ghost<Graph>,
        Ghost(p): Ghost<LayerVia>,
        cur: LayerVia,
        start_end_via: StartEndVia,
    ) -> (r: LayerVia)
        requires
            self.sized(board),
            g.wf(),
            g == search_graph(router, nets, layout.settings, start_end_via.start),
            g.board() == board,
            board.contains(cur.via),
            cur.is_wire_layer,
            self.is_pred(g, p, cur),
            self.cost(board, cur) < usize::MAX,
        ensures
            board.contains(r.via),
            g.plain_edge(r, cur),
            g.step_cost(r, cur).is_some(),
            self.cost(board, r) + g.step_cost(r, cur).unwrap() == self.cost(board, cur),
    {
        let cur_cost = self.get_cost(board, cur);
        let avail = router.is_available(board, nets, cur, start_end_via.start);
        assert(g.plain_edge(p, cur));
        assert(avail);
        if cur.via.x > 0 {
            let q = self.step_left(cur);
            if self.steps_from(board, q, layout.settings.wire_cost, cur_cost) {
                return q;
            }
        }
        if cur.via.x < board.w - 1 {
            let q = self.step_right(cur);
            if self.steps_from(board, q, layout.settings.wire_cost, cur_cost) {
                return q;
            }
        }
        let q = self.step_to_strip(cur);
        assert(p == q);
        q
    }

    /// The node from which the route reaches the strip-layer node `cur`: a neighbour, or
    /// the strip under the far end of a jumper. The second result says whether the step
    /// passes through a jumper.
    fn find_pred_strip(
        &self,
        board: Board,
        layout: &Layout,
        nets: &Nets,
        router: &Router,
        Ghost(g): Ghost<Graph>,
        Ghost(p): Ghost<LayerVia>,
        cur: LayerVia,
        start_end_via: StartEndVia,
    ) -> (r: (LayerVia, bool))
        requires
            self.sized(board),
            g.wf(),
            g == search_graph(router, nets, layout.settings, start_end_via.start),
            g.board() == board,
            board.contains(cur.via),
            !cur.is_wire_layer,
            self.is_pred(g, p, cur),
            self.cost(board, cur) < usize::MAX,
        ensures
            board.contains(r.0.via),
            g.step_cost(r.0, cur).is_some(),
            self.cost(board, r.0) + g.step_cost(r.0, cur).unwrap() == self.cost(board, cur),
            r.1 == (!g.plain_edge(r.0, cur) && g.jump_edge(r.0, cur)),
    {
        let cur_cost = self.get_cost(board, cur);
        let avail = router.is_available(board, nets, cur, start_end_via.start);
        if avail {
            if cur.via.y > 0 {
                let q = self.step_up(cur);
                if self.steps_from(board, q, layout.settings.strip_cost, cur_cost) {
                    return (q, false);
                }
            }
            if cur.via.y < board.h - 1 {
                let q = self.step_down(cur);
                if self.steps_from(board, q, layout.settings.strip_cost, cur_cost) {
                    return (q, false);
                }
            }
            let q = self.step_to_wire(cur);
            if self.steps_from(board, q, layout.settings.via_cost, cur_cost) {
                return (q, false);
            }
        }
        assert(!g.plain_edge(p, cur));
        assert(g.jump_edge(p, cur));
        let wire_to_via = router.wire_to_via(board, cur.via);
        let q = LayerVia { via: wire_to_via.via, is_wire_layer: false };
        assert(q == p);
        (q, true)
    }

    /// The node from which the route reaches `cur`: a neighbour, or the strip under the
    /// far end of a jumper, whose cost and the step to `cur` add up to the cost of `cur`.
    /// The second result says whether the step passes through a jumper.
    fn find_pred(
        &self,
        board: Board,
        layout: &Layout,
        nets: &Nets,
        router: &Router,
        Ghost(g): Ghost<Graph>,
        Ghost(end): Ghost<LayerVia>,
        cur: LayerVia,
        start_end_via: StartEndVia,
    ) -> (r: (LayerVia, bool))
        requires
            self.done(g, end),
            g == search_graph(router, nets, layout.settings, start_end_via.start),
            g.board() == board,
            board.contains(cur.via),
            self.reached(board, cur),
            cur != g.start_node(),
        ensures
            board.contains(r.0.via),
            self.reached(board, r.0),
            g.step_cost(r.0, cur).is_some(),
            self.cost(board, r.0) + g.step_cost(r.0, cur).unwrap() == self.cost(board, cur),
            r.1 == (!g.plain_edge(r.0, cur) && g.jump_edge(r.0, cur)),
    {
        proof {
            self.lemma_pred_exists(g, end, cur);
        }
        let ghost p = choose|p: LayerVia| #[trigger] self.is_pred(g, p, cur);
        let r = if cur.is_wire_layer {
            (self.find_pred_wire(board, layout, nets, router, Ghost(g), Ghost(p), cur, start_end_via), false)
        } else {
            self.find_pred_strip(board, layout, nets, router, Ghost(g), Ghost(p), cur, start_end_via)
        };
        proof {
            self.lemma_cost_reached(g, end, r.0);
        }
        r
    }

    /// Walks back from the end of the connection to its start, from each node to one from
    /// which it was reached, and returns the steps from start to end. The cost of the
    /// route is added to the cost of the layout.
    fn backtrace_lowest_cost_route(
        &self,
        board: Board,
        layout: &mut Layout,
        nets: &Nets,
        router: &Router,
        start_end_via: StartEndVia,
    ) -> (route: Vec<LayerVia>)
        requires
            self.done(
                search_graph(router, nets, old(layout).settings, start_end_via.start),
                LayerVia { via: start_end_via.end, is_wire_layer: false },
            ),
            router.board == board,
            old(layout).cost + Self::limit(
                search_graph(router, nets, old(layout).settings, start_end_via.start),
            ) <= usize::MAX,
        ensures
            is_lowest_cost_route(
                search_graph(router, nets, old(layout).settings, start_end_via.start),
                LayerVia { via: start_end_via.end, is_wire_layer: false },
                route@,
                final(layout).cost - old(layout).cost,
            ),
            final(layout).cost - old(layout).cost == self.cost(
                board,
                LayerVia { via: start_end_via.end, is_wire_layer: false },
            ),
            same_but_cost_and_diag(*old(layout), *final(layout)),
            final(layout).cost - old(layout).cost <= Self::limit(
                search_graph(router, nets, old(layout).settings, start_end_via.start),
            ),
            final(layout).diag_route_step_vec@ == route@,
            final(layout).diag_start_via == (ValidVia { via: start_end_via.start, is_valid: true }),
            final(layout).diag_end_via == (ValidVia { via: start_end_via.end, is_valid: true }),
    {
        let ghost g = search_graph(router, nets, layout.settings, start_end_via.start);
        let start = LayerVia::from_via(start_end_via.start, false);
        let end = LayerVia::from_via(start_end_via.end, false);
        let mut route_rev: Vec<LayerVia> = Vec::new();
        let mut cur_node = end;
        route_rev.push(cur_node);
        let ghost mut path: Seq<LayerVia> = seq![end];
        proof {
            assert(g.is_path(path));
            assert(g.path_cost(path) == 0);
            assert(g.steps_after(path) =~= Seq::empty());
            assert(route_rev@ =~= backwards(g.expand(path)));
        }
        while cur_node != start
            invariant
                self.done(g, end),
                g == search_graph(router, nets, layout.settings, start_end_via.start),
                g.board() == board,
                start == g.start_node(),
                end == (LayerVia { via: start_end_via.end, is_wire_layer: false }),
                g.is_path(path),
                path[0] == cur_node,
                path[path.len() - 1] == end,
                board.contains(cur_node.via),
                self.reached(board, cur_node),
                g.path_cost(path) + self.cost(board, cur_node) == self.cost(board, end),
                route_rev@ == backwards(g.expand(path)),
            decreases self.cost(board, cur_node),
        {
            let (pred, jump) = self.find_pred(
                board,
                layout,
                nets,
                router,
                Ghost(g),
                Ghost(end),
                cur_node,
                start_end_via,
            );
            let ghost old_rev = route_rev@;
            let ghost mid = g.expand_step(pred, cur_node).drop_last();
            if jump {
                // Up to the wire layer and along the jumper to its far end.
                let x1 = cur_node.via.x;
                let x2 = pred.via.x;
                let y = cur_node.via.y;
                let n: usize = if x1 <= x2 { x2 - x1 } else { x1 - x2 };
                let mut i: usize = 0;
                while i <= n
                    invariant
                        i <= n + 1,
                        n == (if x1 <= x2 { x2 - x1 } else { x1 - x2 }),
                        n < usize::MAX,
                        route_rev@ == old_rev + wire_run(y, x1, x2).subrange(0, i as int),
                    decreases n + 1 - i,
                {
                    let x: usize = if x1 <= x2 { x1 + i } else { x1 - i };
                    route_rev.push(LayerVia::from_via(Via::new(x, y), true));
                    proof {
                        let run = wire_run(y, x1, x2);
                        assert(run.subrange(0, i as int + 1) =~= run.subrange(0, i as int).push(run[i as int]));
                    }
                    i += 1;
                }
                proof {
                    let run = wire_run(y, x1, x2);
                    assert(run.subrange(0, n as int + 1) =~= run);
                    assert(mid =~= wire_run(y, x2, x1));
                    assert(run =~= backwards(mid));
                }
            } else {
                proof {
                    assert(mid =~= Seq::empty());
                    assert(backwards(mid) =~= Seq::empty());
                    assert(old_rev + backwards(mid) =~= old_rev);
                }
            }
            route_rev.push(pred);
            proof {
                let new_path = seq![pred] + path;
                g.lemma_path_cons(pred, path);
                let e_old = g.expand(path);
                let e_new = g.expand(new_path);
                assert(e_new == seq![pred] + mid + e_old);
                assert(route_rev@ == (old_rev + backwards(mid)).push(pred));
                assert(route_rev@ =~= backwards(e_new));
                path = new_path;
            }
            cur_node = pred;
        }
        let route_cost = self.get_cost(board, end);
        proof {
            reveal(UniformCostSearch::bounded);
            assert(self.room(g) >= 0) by (nonlinear_arith)
                requires
                    self.room(g) == unmarked_count(self.explored_set@) * g.settings.spec_max_step_cost(),
                    g.settings.spec_max_step_cost() >= 0,
            ;
            assert(route_cost <= Self::limit(g));
        }
        layout.cost = layout.cost + route_cost;
        // The steps were collected from the end; turn them round.
        let mut route: Vec<LayerVia> = Vec::new();
        let mut copy: Vec<LayerVia> = Vec::new();
        let n = route_rev.len();
        let mut i: usize = 0;
        while i < n
            invariant
                i <= n,
                n == route_rev@.len(),
                route@.len() == i,
                copy@ == route@,
                forall|j: int| 0 <= j < i ==> route@[j] == route_rev@[n - 1 - j],
            decreases n - i,
        {
            route.push(route_rev[n - 1 - i]);
            copy.push(route_rev[n - 1 - i]);
            i += 1;
        }
        layout.diag_route_step_vec = copy;
        layout.diag_start_via = ValidVia::from_via(start.via);
        layout.diag_end_via = ValidVia::from_via(end.via);
        proof {
            assert(route@ =~= g.expand(path));
            assert(g.connects(path, g.start_node(), end));
            assert forall|q: Seq<LayerVia>| g.connects(q, g.start_node(), end) implies g.path_cost(path)
                <= g.path_cost(q) by {
                self.lemma_optimal(g, end, q);
            }
            assert(g.cheapest(path, end));
        }
        route
    }

    /// Finds a cheapest route for the connection `start_end_via` and returns its steps,
    /// from the start on the strip layer to the end on the strip layer; the cost of the
    /// route is added to the cost of the layout. Where no route exists, no steps are
    /// returned and the layout stays as it is.
    pub fn find_lowest_cost_route(
        &mut self,
        board: Board,
        layout: &mut Layout,
        nets: &Nets,
        router: &Router,
        start_end_via: StartEndVia,
    ) -> (route: Vec<LayerVia>)
        requires
            old(self).is_fresh(board),
            router.board == board,
            search_graph(router, nets, old(layout).settings, start_end_via.start).wf(),
            board.contains(start_end_via.end),
            old(layout).cost + Self::limit(
                search_graph(router, nets, old(layout).settings, start_end_via.start),
            ) <= usize::MAX,
        ensures
            route@.len() == 0 <==> !search_graph(
                router,
                nets,
                old(layout).settings,
                start_end_via.start,
            ).reachable(
                LayerVia { via: start_end_via.start, is_wire_layer: false },
                LayerVia { via: start_end_via.end, is_wire_layer: false },
            ),
            route@.len() == 0 ==> *final(layout) == *old(layout),
            route@.len() > 0 ==> is_lowest_cost_route(
                search_graph(router, nets, old(layout).settings, start_end_via.start),
                LayerVia { via: start_end_via.end, is_wire_layer: false },
                route@,
                final(layout).cost - old(layout).cost,
            ),
            route@.len() > 0 ==> {
                &&& route@[0] == (LayerVia { via: start_end_via.start, is_wire_layer: false })
                &&& route@[route@.len() - 1] == (LayerVia { via: start_end_via.end, is_wire_layer: false })
                &&& valid_steps(route@)
                &&& forall|i: int| 0 <= i < route@.len() ==> board.contains(#[trigger] route@[i].via)
            },
            same_but_cost_and_diag(*old(layout), *final(layout)),
            route@.len() > 0 ==> final(layout).diag_route_step_vec@ == route@,
            final(layout).cost - old(layout).cost <= Self::limit(
                search_graph(router, nets, old(layout).settings, start_end_via.start),
            ),
    {
        let ghost g = search_graph(router, nets, layout.settings, start_end_via.start);
        let ghost end = LayerVia { via: start_end_via.end, is_wire_layer: false };
        let found_route = self.find_costs(board, layout, nets, router, start_end_via);
        if found_route {
            let route = self.backtrace_lowest_cost_route(board, layout, nets, router, start_end_via);
            proof {
                let p = choose|p: Seq<LayerVia>| g.cheapest(p, end) && route@ == g.expand(p);
                assert(g.connects(p, g.start_node(), end));
                g.lemma_expand_valid(p);
            }
            route
        } else {
            Vec::new()
        }
    }

    pub fn step_left(&self, v: LayerVia) -> (r: LayerVia)
        requires
            v.via.x > 0,
        ensures
            r == (LayerVia { via: Via { x: (v.via.x - 1) as usize, y: v.via.y }, is_wire_layer: v.is_wire_layer }),
    {
        LayerVia::from_via(Via::new(v.via.x - 1, v.via.y), v.is_wire_layer)
    }

    pub fn step_right(&self, v: LayerVia) -> (r: LayerVia)
        requires
            v.via.x < usize::MAX,
        ensures
            r == (LayerVia { via: Via { x: (v.via.x + 1) as usize, y: v.via.y }, is_wire_layer: v.is_wire_layer }),
    {
        LayerVia::from_via(Via::new(v.via.x + 1, v.via.y), v.is_wire_layer)
    }

    pub fn step_up(&self, v: LayerVia) -> (r: LayerVia)
        requires
            v.via.y > 0,
        ensures
            r == (LayerVia { via: Via { x: v.via.x, y: (v.via.y - 1) as usize }, is_wire_layer: v.is_wire_layer }),
    {
        LayerVia::from_via(Via::new(v.via.x, v.via.y - 1), v.is_wire_layer)
    }

    pub fn step_down(&self, v: LayerVia) -> (r: LayerVia)
        requires
            v.via.y < usize::MAX,
        ensures
            r == (LayerVia { via: Via { x: v.via.x, y: (v.via.y + 1) as usize }, is_wire_layer: v.is_wire_layer }),
    {
        LayerVia::from_via(Via::new(v.via.x, v.via.y + 1), v.is_wire_layer)
    }

    pub fn step_to_wire(&self, v: LayerVia) -> (r: LayerVia)
        requires
            !v.is_wire_layer,
        ensures
            r == (LayerVia { via: v.via, is_wire_layer: true }),
    {
        LayerVia::from_via(v.via, true)
    }

    pub fn step_to_strip(&self, v: LayerVia) -> (r: LayerVia)
        requires
            v.is_wire_layer,
        ensures
            r == (LayerVia { via: v.via, is_wire_layer: false }),
    {
        LayerVia::from_via(v.via, false)
    }
}

} // verus!
