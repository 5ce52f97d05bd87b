//! The genetic algorithm as the router sees it: an endless supply of orders to try.
//!
//! A worker reserves an order, asks for it, routes it and releases it with the fitness
//! that routing gave. When every order of a generation has been handed out, nothing more
//! can be reserved until all of them have been released; the next reservation then makes
//! the next generation.

use crate::ga_core::{bred_at, decode, is_permutation, Population};
use vstd::prelude::*;

verus! {

/// The number of organisms that the router works with.
pub const DEFAULT_POPULATION_SIZE: usize = 1000;

/// The crossover rate that the router works with, out of `RATE_SCALE`.
pub const DEFAULT_CROSSOVER_RATE: usize = 700_000;

/// The mutation rate that the router works with, out of `RATE_SCALE`.
pub const DEFAULT_MUTATION_RATE: usize = 10_000;

pub struct GeneticAlgorithm {
    pub n_organisms_in_population: usize,
    pub crossover_rate: usize,
    pub mutation_rate: usize,
    pub n_connections_in_circuit: usize,
    /// The place of the next order to hand out.
    pub next_ordering_idx: usize,
    /// How many orders of this generation have not been released yet.
    pub n_unprocessed_orderings: usize,
    pub population: Population,
}

impl GeneticAlgorithm {
    /// The counts stay within the population, and once a circuit has been set the
    /// population is complete for it.
    pub open spec fn wf(&self) -> bool {
        &&& self.population.sized()
        &&& self.population.n_organisms_in_population == self.n_organisms_in_population
        &&& self.next_ordering_idx <= self.n_organisms_in_population
        &&& self.n_unprocessed_orderings <= self.n_organisms_in_population
        &&& self.n_connections_in_circuit > 0 ==> self.population.wf() && self.population.n_genes_per_organism
            == self.n_connections_in_circuit
    }

    /// Whether an order can be handed out without making a new generation.
    pub open spec fn has_unreserved(&self) -> bool {
        self.n_connections_in_circuit > 0 && self.next_ordering_idx < self.n_organisms_in_population
    }

    /// Whether the next reservation makes a new generation.
    pub open spec fn is_due(&self) -> bool {
        self.n_connections_in_circuit > 0 && self.next_ordering_idx == self.n_organisms_in_population
            && self.n_unprocessed_orderings == 0
    }

    /// A genetic algorithm for which no circuit has been set yet. The rates count out of
    /// `RATE_SCALE`.
    pub fn new(n_organisms_in_population: usize, crossover_rate: usize, mutation_rate: usize, seed: u64) -> (ga: Self)
        requires
            n_organisms_in_population >= 2,
            n_organisms_in_population % 2 == 0,
        ensures
            ga.wf(),
            ga.n_organisms_in_population == n_organisms_in_population,
            ga.crossover_rate == crossover_rate,
            ga.mutation_rate == mutation_rate,
            ga.n_connections_in_circuit == 0,
            ga.next_ordering_idx == 0,
            ga.n_unprocessed_orderings == 0,
    {
        Self {
            n_organisms_in_population,
            crossover_rate,
            mutation_rate,
            n_connections_in_circuit: 0,
            next_ordering_idx: 0,
            n_unprocessed_orderings: 0,
            population: Population::new(n_organisms_in_population, crossover_rate, mutation_rate, seed),
        }
    }

    /// Starts over with a random population for a circuit of `n_connections_in_circuit`
    /// connections.
    pub fn reset(&mut self, n_connections_in_circuit: usize)
        requires
            old(self).wf(),
            n_connections_in_circuit > 0,
        ensures
            final(self).wf(),
            final(self).n_connections_in_circuit == n_connections_in_circuit,
            final(self).next_ordering_idx == 0,
            final(self).n_unprocessed_orderings == old(self).n_organisms_in_population,
            final(self).n_organisms_in_population == old(self).n_organisms_in_population,
            final(self).crossover_rate == old(self).crossover_rate,
            final(self).mutation_rate == old(self).mutation_rate,
    {
        self.n_connections_in_circuit = n_connections_in_circuit;
        self.population.reset(n_connections_in_circuit);
        self.next_ordering_idx = 0;
        self.n_unprocessed_orderings = self.n_organisms_in_population;
    }

    /// Reserves the next order and returns its place. Returns `None` when no circuit has
    /// been set, and when every order of the generation has been handed out but not all
    /// have been released: the caller then has to wait and try again. When all have been
    /// released, the next generation is made and its first order is reserved.
    pub fn reserve_ordering(&mut self) -> (r: Option<usize>)
        requires
            old(self).wf(),
        ensures
            final(self).wf(),
            final(self).n_organisms_in_population == old(self).n_organisms_in_population,
            final(self).crossover_rate == old(self).crossover_rate,
            final(self).mutation_rate == old(self).mutation_rate,
            final(self).n_connections_in_circuit == old(self).n_connections_in_circuit,
            r.is_some() <==> old(self).has_unreserved() || old(self).is_due(),
            old(self).has_unreserved() ==> {
                &&& r == Some(old(self).next_ordering_idx)
                &&& final(self).next_ordering_idx == old(self).next_ordering_idx + 1
                &&& final(self).n_unprocessed_orderings == old(self).n_unprocessed_orderings
                &&& final(self).population == old(self).population
            },
            old(self).is_due() ==> {
                &&& r == Some(0usize)
                &&& final(self).next_ordering_idx == 1
                &&& final(self).n_unprocessed_orderings == old(self).n_organisms_in_population
                &&& forall|j: int|
                    0 <= j < old(self).n_organisms_in_population / 2 ==> #[trigger] bred_at(
                        old(self).population.organism_vec@,
                        old(self).population.crossover_rate,
                        old(self).population.mutation_rate,
                        final(self).population.organism_vec@,
                        j,
                    )
            },
            r.is_none() ==> *final(self) == *old(self),
    {
        if self.n_connections_in_circuit == 0 {
            return None;
        }
        let is_new_generation_required = self.next_ordering_idx == self.n_organisms_in_population;
        let is_all_orderings_released = self.n_unprocessed_orderings == 0;
        if is_new_generation_required {
            if is_all_orderings_released {
                self.population.next_generation();
                self.n_unprocessed_orderings = self.n_organisms_in_population;
                self.next_ordering_idx = 0;
            } else {
                return None;
            }
        }
        let result = self.next_ordering_idx;
        self.next_ordering_idx += 1;
        Some(result)
    }

    /// The order that the organism at place `ordering_idx` stands for: each connection of
    /// the circuit exactly once.
    pub fn get_ordering(&self, ordering_idx: usize) -> (order: Vec<usize>)
        requires
            self.wf(),
            self.n_connections_in_circuit > 0,
            ordering_idx < self.n_organisms_in_population,
        ensures
            order@ == decode(self.population.organism_vec@[ordering_idx as int].gene_vec@),
            is_permutation(order@, self.n_connections_in_circuit as int),
    {
        self.population.organism_vec[ordering_idx].calc_connection_idx_vec()
    }

    /// Releases the order at place `ordering_idx` with the fitness that routing it gave.
    pub fn release_ordering(&mut self, ordering_idx: usize, n_completed_routes: usize, completed_route_cost: usize)
        requires
            old(self).wf(),
            old(self).n_connections_in_circuit > 0,
            ordering_idx < old(self).n_organisms_in_population,
            old(self).n_unprocessed_orderings > 0,
        ensures
            final(self).wf(),
            final(self).n_unprocessed_orderings == old(self).n_unprocessed_orderings - 1,
            final(self).next_ordering_idx == old(self).next_ordering_idx,
            final(self).n_organisms_in_population == old(self).n_organisms_in_population,
            final(self).crossover_rate == old(self).crossover_rate,
            final(self).mutation_rate == old(self).mutation_rate,
            final(self).n_connections_in_circuit == old(self).n_connections_in_circuit,
            final(self).population.organism_vec@.len() == old(self).population.organism_vec@.len(),
            final(self).population.organism_vec@[ordering_idx as int].n_completed_routes == n_completed_routes,
            final(self).population.organism_vec@[ordering_idx as int].completed_route_cost
                == completed_route_cost,
            final(self).population.organism_vec@[ordering_idx as int].gene_vec == old(self).population.organism_vec@[ordering_idx as int].gene_vec,
            forall|i: int|
                0 <= i < final(self).population.organism_vec@.len() && i != ordering_idx
                    ==> #[trigger] final(self).population.organism_vec@[i] == old(self).population.organism_vec@[i],
    {
        let ghost before = self.population.organism_vec@;
        self.population.organism_vec[ordering_idx].n_completed_routes = n_completed_routes;
        self.population.organism_vec[ordering_idx].completed_route_cost = completed_route_cost;
        self.n_unprocessed_orderings -= 1;
        proof {
            assert forall|i: int| 0 <= i < self.population.organism_vec@.len() implies (
            #[trigger] self.population.organism_vec@[i]).wf() && self.population.organism_vec@[i].n_genes
                == self.population.n_genes_per_organism by {
                assert(before[i].wf());
            }
        }
    }
}

} // verus!
