//! The result of one routing attempt.

use crate::board::Board;
use crate::circuit::{copy_texts, same_texts, Circuit};
use crate::settings::Settings;
use crate::util::copy_of;
use crate::via::{CostVia, LayerStartEndVia, LayerVia, ValidVia, Via, WireLayerVia};
use vstd::prelude::*;

verus! {

/// A circuit, the board and costs it is routed with, and the routes found so far.
#[derive(Clone, Debug)]
pub struct Layout {
    pub circuit: Circuit,
    pub settings: Settings,
    pub board: Board,
    /// The cost of all routes found, and of the cuts once they are derived.
    pub cost: usize,
    pub n_completed_routes: usize,
    pub n_failed_routes: usize,
    pub layout_info_vec: Vec<String>,
    /// For each route found, in the order of the attempts, its sections.
    pub route_vec: Vec<Vec<LayerStartEndVia>>,
    /// Where a strip has to be cut: the cut lies just above the via named.
    pub strip_cut_vec: Vec<Via>,
    /// For each connection of the circuit, whether a route for it was found.
    pub route_status_vec: Vec<bool>,
    /// The members of each net when routing ended.
    pub via_set_vec: Vec<Vec<Via>>,
    /// For each cell, the number of its net when routing ended.
    pub set_idx_vec: Vec<usize>,
    pub diag_start_via: ValidVia,
    pub diag_end_via: ValidVia,
    pub diag_cost_vec: Vec<CostVia>,
    pub diag_route_step_vec: Vec<LayerVia>,
    pub diag_trace_vec: Vec<WireLayerVia>,
    /// Names the input that this layout was derived from.
    pub base_timestamp: u64,
}

impl Layout {
    /// An empty layout on a board without vias, with the default costs.
    pub fn new() -> (l: Self)
        ensures
            l.board == (Board { w: 0, h: 0 }),
            l.settings == (Settings { wire_cost: 1, strip_cost: 2, via_cost: 3, cut_cost: 4 }),
            l.cost == 0,
            l.n_completed_routes == 0,
            l.n_failed_routes == 0,
            l.base_timestamp == 0,
            l.circuit.package_to_pos_map@.len() == 0,
            l.circuit.component_name_to_component_map@.len() == 0,
            l.circuit.connection_vec@.len() == 0,
            l.circuit.parser_error_vec@.len() == 0,
            l.layout_info_vec@.len() == 0,
            l.route_vec@.len() == 0,
            l.strip_cut_vec@.len() == 0,
            l.route_status_vec@.len() == 0,
            l.via_set_vec@.len() == 0,
            l.set_idx_vec@.len() == 0,
            !l.diag_start_via.is_valid,
            !l.diag_end_via.is_valid,
            l.diag_cost_vec@.len() == 0,
            l.diag_route_step_vec@.len() == 0,
            l.diag_trace_vec@.len() == 0,
    {
        Self {
            circuit: Circuit::new(),
            settings: Settings::new(),
            board: Board::new(0, 0),
            cost: 0,
            n_completed_routes: 0,
            n_failed_routes: 0,
            layout_info_vec: Vec::new(),
            route_vec: Vec::new(),
            strip_cut_vec: Vec::new(),
            route_status_vec: Vec::new(),
            via_set_vec: Vec::new(),
            set_idx_vec: Vec::new(),
            diag_start_via: ValidVia::new(),
            diag_end_via: ValidVia::new(),
            diag_cost_vec: Vec::new(),
            diag_route_step_vec: Vec::new(),
            diag_trace_vec: Vec::new(),
            base_timestamp: 0,
        }
    }

    /// Marks the layout as derived from the input that `timestamp` names.
    pub fn update_base_timestamp(&mut self, timestamp: u64)
        ensures
            *final(self) == (Layout { base_timestamp: timestamp, ..*old(self) }),
    {
        self.base_timestamp = timestamp;
    }

    /// Whether both layouts were derived from the same input.
    pub fn is_based_on(&self, other: &Self) -> (r: bool)
        ensures
            r == (self.base_timestamp == other.base_timestamp),
    {
        self.base_timestamp == other.base_timestamp
    }

    pub fn get_base_timestamp(&self) -> (t: &u64)
        ensures
            *t == self.base_timestamp,
    {
        &self.base_timestamp
    }
    /// Whether `other` holds what this layout holds.
    pub open spec fn same_as(&self, other: &Layout) -> bool {
        &&& self.circuit.same_as(&other.circuit)
        &&& other.settings == self.settings
        &&& other.board == self.board
        &&& other.cost == self.cost
        &&& other.n_completed_routes == self.n_completed_routes
        &&& other.n_failed_routes == self.n_failed_routes
        &&& same_texts(self.layout_info_vec@, other.layout_info_vec@)
        &&& other.route_vec@.len() == self.route_vec@.len()
        &&& forall|r: int| 0 <= r < self.route_vec@.len() ==> (#[trigger] other.route_vec@[r])@ == self.route_vec@[r]@
        &&& other.strip_cut_vec@ == self.strip_cut_vec@
        &&& other.route_status_vec@ == self.route_status_vec@
        &&& other.via_set_vec@.len() == self.via_set_vec@.len()
        &&& forall|k: int|
            0 <= k < self.via_set_vec@.len() ==> (#[trigger] other.via_set_vec@[k])@ == self.via_set_vec@[k]@
        &&& other.set_idx_vec@ == self.set_idx_vec@
        &&& other.diag_start_via == self.diag_start_via
        &&& other.diag_end_via == self.diag_end_via
        &&& other.diag_cost_vec@ == self.diag_cost_vec@
        &&& other.diag_route_step_vec@ == self.diag_route_step_vec@
        &&& other.diag_trace_vec@ == self.diag_trace_vec@
        &&& other.base_timestamp == self.base_timestamp
    }

    /// Makes this layout a copy of `other`.
    pub fn copy(&mut self, other: &Self)
        ensures
            other.same_as(final(self)),
    {
        self.circuit = other.circuit.duplicate();
        self.settings = other.settings;
        self.board = other.board;
        self.cost = other.cost;
        self.n_completed_routes = other.n_completed_routes;
        self.n_failed_routes = other.n_failed_routes;
        self.layout_info_vec = copy_texts(&other.layout_info_vec);
        let mut routes: Vec<Vec<LayerStartEndVia>> = Vec::new();
        let mut r: usize = 0;
        while r < other.route_vec.len()
            invariant
                r <= other.route_vec@.len(),
                routes@.len() == r,
                forall|k: int| 0 <= k < r ==> (#[trigger] routes@[k])@ == other.route_vec@[k]@,
            decreases other.route_vec@.len() - r,
        {
            routes.push(copy_of(&other.route_vec[r]));
            r += 1;
        }
        self.route_vec = routes;
        self.strip_cut_vec = copy_of(&other.strip_cut_vec);
        self.route_status_vec = copy_of(&other.route_status_vec);
        let mut sets: Vec<Vec<Via>> = Vec::new();
        let mut k: usize = 0;
        while k < other.via_set_vec.len()
            invariant
                k <= other.via_set_vec@.len(),
                sets@.len() == k,
                forall|j: int| 0 <= j < k ==> (#[trigger] sets@[j])@ == other.via_set_vec@[j]@,
            decreases other.via_set_vec@.len() - k,
        {
            sets.push(copy_of(&other.via_set_vec[k]));
            k += 1;
        }
        self.via_set_vec = sets;
        self.set_idx_vec = copy_of(&other.set_idx_vec);
        self.diag_start_via = other.diag_start_via;
        self.diag_end_via = other.diag_end_via;
        self.diag_cost_vec = copy_of(&other.diag_cost_vec);
        self.diag_route_step_vec = copy_of(&other.diag_route_step_vec);
        self.diag_trace_vec = copy_of(&other.diag_trace_vec);
        self.base_timestamp = other.base_timestamp;
    }

    /// A copy of this layout, for a worker to route on while others read this one.
    pub fn thread_safe_copy(&self) -> (copy: Self)
        ensures
            self.same_as(&copy),
    {
        let mut copy = Layout::new();
        copy.copy(self);
        copy
    }
}

} // verus!
