//! Autorouter for single-sided stripboard circuits.
//!
//! A board is a grid of holes ("vias") with two layers: the strip layer, where copper runs
//! vertically along each column, and the wire layer, where insulated jumpers run horizontally
//! along each row. The router connects the pins of a circuit one connection at a time with a
//! lowest-cost search, and a genetic algorithm proposes the order in which to try them.
//!
//! The modules, from the ground up: [`via`], [`board`] and [`settings`] hold the small
//! records; [`circuit`] and [`circuit_parser`] the circuit and its text; [`nets`] the
//! electrical classes of vias; [`graph`], [`ucs`] and [`laws`] the search for one route;
//! [`sections`] and [`router`] the routing of a whole circuit into a [`layout`];
//! [`ga_core`] and [`ga_interface`] the genetic algorithm; [`router_thread`] and
//! [`thread_stop`] what a worker needs; [`util`] copies and numbers as text.

pub mod board;
pub mod circuit;
pub mod circuit_parser;
pub mod ga_core;
pub mod ga_interface;
pub mod graph;
pub mod laws;
pub mod layout;
pub mod nets;
pub mod router;
pub mod router_thread;
pub mod sections;
pub mod settings;
pub mod thread_stop;
pub mod ucs;
pub mod util;
pub mod via;
