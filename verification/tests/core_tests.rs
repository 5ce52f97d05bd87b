use stripboard_autorouter::board::Board;
use stripboard_autorouter::circuit::{Circuit, Component, Connection, ConnectionPoint};
use stripboard_autorouter::layout::Layout;
use stripboard_autorouter::nets::{Nets, NO_SET};
use stripboard_autorouter::router::Router;
use stripboard_autorouter::router_thread::{
    should_promote, worker_step, WorkerAction, WorkerEvent, WorkerState,
};
use stripboard_autorouter::sections::condense;
use stripboard_autorouter::settings::Settings;
use stripboard_autorouter::ucs::UniformCostSearch;
use stripboard_autorouter::via::{
    checked_via_from_offset, coordinate_from_offset, via_from_offset, via_to_str, CostVia, LayerCostVia,
    LayerStartEndVia, LayerVia, OffsetVia, StartEndVia, ValidVia, Via, WireLayerVia,
};

fn strip(x: usize, y: usize) -> LayerVia {
    LayerVia::from_via(Via::new(x, y), false)
}

fn wire(x: usize, y: usize) -> LayerVia {
    LayerVia::from_via(Via::new(x, y), true)
}

fn section(a: LayerVia, b: LayerVia) -> LayerStartEndVia {
    LayerStartEndVia::from_layer_vias(a, b)
}

#[test]
fn board_size_and_index() {
    let board = Board::new(4, 3);
    assert_eq!(board.size(), 12);
    assert_eq!(board.idx(Via::new(0, 0)), 0);
    assert_eq!(board.idx(Via::new(3, 0)), 3);
    assert_eq!(board.idx(Via::new(0, 1)), 4);
    assert_eq!(board.idx(Via::new(3, 2)), 11);
    assert!(board.has(Via::new(3, 2)));
    assert!(!board.has(Via::new(4, 2)));
    assert!(!board.has(Via::new(3, 3)));
    assert_eq!(Board::new(0, 7).size(), 0);
}

#[test]
fn default_settings() {
    let s = Settings::new();
    assert_eq!((s.wire_cost, s.strip_cost, s.via_cost, s.cut_cost), (1, 2, 3, 4));
    assert_eq!(s.max_step_cost(), 3);
    let t = Settings { wire_cost: 9, strip_cost: 2, via_cost: 3, cut_cost: 100 };
    assert_eq!(t.max_step_cost(), 9);
}

#[test]
fn via_records() {
    assert_eq!(Via::new(3, 4), Via { x: 3, y: 4 });
    assert_eq!(via_to_str(&Via::new(10, 255)), "Via(0a,ff)");
    assert_eq!(wire(1, 2).to_text(), "LayerVia(01,02,wire)");
    assert_eq!(strip(16, 0).to_text(), "LayerVia(10,00,strip)");
    let absent = ValidVia::new();
    assert!(!absent.is_valid);
    assert_eq!(absent.via, Via::new(usize::MAX, usize::MAX));
    let present = ValidVia::from_via(Via::new(1, 2));
    assert!(present.is_valid);
    assert_eq!(present.via, Via::new(1, 2));
    assert_eq!(LayerVia::new(), strip(0, 0));
    assert!(strip(1, 2).is_target(Via::new(1, 2)));
    assert!(!wire(1, 2).is_target(Via::new(1, 2)));
    assert!(!strip(1, 3).is_target(Via::new(1, 2)));
    assert_eq!(LayerVia::from_layer_cost_via(&LayerCostVia::from_values(1, 2, true, 9)), wire(1, 2));
    assert_eq!(LayerCostVia::new(), LayerCostVia::from_layer_via(strip(0, 0), 0));
    assert_eq!(LayerCostVia::from_values(3, 4, false, 5).str(), "3, 4");
    let cost = CostVia::new();
    assert_eq!((cost.wire_cost, cost.strip_cost), (usize::MAX, usize::MAX));
    let cell = WireLayerVia::new();
    assert!(!cell.is_wire_side_blocked);
    assert!(!cell.wire_to_via.is_valid);
    assert_eq!(LayerStartEndVia::new(), section(strip(0, 0), strip(0, 0)));
    let c = StartEndVia::new(Via::new(1, 1), Via::new(2, 2));
    assert_eq!((c.start, c.end), (Via::new(1, 1), Via::new(2, 2)));
}

#[test]
fn frontier_order_is_by_cost_then_column_row_layer() {
    let e = |x, y, w, c| LayerCostVia::from_values(x, y, w, c);
    assert!(e(5, 5, true, 1).is_before(&e(0, 0, false, 2)));
    assert!(!e(0, 0, false, 2).is_before(&e(5, 5, true, 1)));
    assert!(e(1, 9, true, 3).is_before(&e(2, 0, false, 3)));
    assert!(e(1, 2, true, 3).is_before(&e(1, 3, false, 3)));
    assert!(e(1, 2, false, 3).is_before(&e(1, 2, true, 3)));
    assert!(!e(1, 2, true, 3).is_before(&e(1, 2, false, 3)));
    assert!(!e(1, 2, true, 3).is_before(&e(1, 2, true, 3)));
}

#[test]
fn offsets() {
    assert_eq!(coordinate_from_offset(5, -5), Some(0));
    assert_eq!(coordinate_from_offset(5, -6), None);
    assert_eq!(coordinate_from_offset(5, 6), Some(11));
    assert_eq!(coordinate_from_offset(usize::MAX, 1), None);
    assert_eq!(coordinate_from_offset(usize::MAX, isize::MIN), Some(usize::MAX - (1usize << 63)));
    assert_eq!(coordinate_from_offset(0, isize::MIN), None);
    let v = Via::new(3, 4);
    assert_eq!(via_from_offset(&v, &OffsetVia::new(-3, 2)), Via::new(0, 6));
    assert_eq!(checked_via_from_offset(&v, &OffsetVia::new(-4, 0)), None);
    assert_eq!(checked_via_from_offset(&v, &OffsetVia::new(0, -5)), None);
    assert_eq!(checked_via_from_offset(&v, &OffsetVia::new(1, 1)), Some(Via::new(4, 5)));
}

#[test]
fn connect_then_is_connected() {
    let board = Board::new(4, 3);
    let mut nets = Nets::new(board);
    let a = Via::new(0, 0);
    let b = Via::new(3, 2);
    assert!(!nets.is_connected(board, a, b));
    assert!(!nets.is_connected(board, a, a));
    nets.connect(board, a, b);
    assert!(nets.is_connected(board, a, b));
    assert!(nets.is_connected(board, b, a));
    assert!(nets.is_connected(board, a, a));
    assert!(nets.has_connection(board, a));
    assert!(!nets.has_connection(board, Via::new(1, 1)));
    assert_eq!(nets.get_via_set_idx(board, a), 0);
    assert_eq!(nets.get_via_set_idx(board, Via::new(1, 1)), NO_SET);
    assert_eq!(nets.get_via_set(board, b), &vec![a, b]);
}

#[test]
fn connect_covers_the_four_cases() {
    let board = Board::new(5, 1);
    let v = |x| Via::new(x, 0);
    let mut nets = Nets::new(board);
    nets.connect(board, v(0), v(1)); // neither has a class
    nets.connect(board, v(0), v(2)); // only the first has one
    nets.connect(board, v(3), v(0)); // only the second has one
    assert_eq!(nets.set_idx_vec, vec![0, 0, 0, 0, NO_SET]);
    nets.connect(board, v(4), v(4)); // a via with itself
    assert_eq!(nets.set_idx_vec, vec![0, 0, 0, 0, 1]);
    nets.connect(board, v(4), v(1)); // both have one: the first absorbs the second
    assert_eq!(nets.set_idx_vec, vec![1, 1, 1, 1, 1]);
    assert_eq!(nets.via_set_vec.len(), 2);
    assert_eq!(nets.via_set_vec[0].len(), 0);
    assert_eq!(nets.via_set_vec[1].len(), 5);
    for x in 0..5 {
        assert!(nets.via_set_vec[1].contains(&v(x)));
    }
}

#[test]
fn connect_commutes_and_is_idempotent() {
    let board = Board::new(3, 3);
    let all: Vec<Via> = (0..3).flat_map(|y| (0..3).map(move |x| Via::new(x, y))).collect();
    let prepare = || {
        let mut nets = Nets::new(board);
        nets.connect(board, Via::new(0, 0), Via::new(1, 0));
        nets.connect(board, Via::new(2, 2), Via::new(1, 2));
        nets.register_pin(board, Via::new(1, 1));
        nets
    };
    let pairs = [
        (Via::new(0, 0), Via::new(2, 2)),
        (Via::new(0, 0), Via::new(0, 1)),
        (Via::new(0, 1), Via::new(0, 2)),
        (Via::new(1, 0), Via::new(0, 0)),
        (Via::new(2, 0), Via::new(2, 0)),
    ];
    for &(a, b) in &pairs {
        let mut ab = prepare();
        ab.connect(board, a, b);
        let mut ba = prepare();
        ba.connect(board, b, a);
        let mut twice = prepare();
        twice.connect(board, a, b);
        twice.connect(board, a, b);
        assert!(ab.is_connected(board, a, b));
        assert_eq!(twice.set_idx_vec, ab.set_idx_vec);
        for &u in &all {
            assert_eq!(ab.has_connection(board, u), ba.has_connection(board, u));
            for &v in &all {
                assert_eq!(ab.is_connected(board, u, v), ba.is_connected(board, u, v));
                assert_eq!(ab.is_connected(board, u, v), twice.is_connected(board, u, v));
            }
        }
    }
}

#[test]
fn connect_route_joins_the_strip_steps() {
    let board = Board::new(5, 5);
    let mut nets = Nets::new(board);
    let route = vec![strip(0, 1), strip(0, 2), wire(0, 2), wire(1, 2), wire(2, 2), strip(2, 2), strip(2, 3)];
    nets.connect_route(board, &route);
    assert!(nets.is_connected(board, Via::new(0, 1), Via::new(2, 3)));
    assert!(nets.is_connected(board, Via::new(0, 2), Via::new(2, 2)));
    // The jumper passes over (1,2) without touching the strip.
    assert!(!nets.has_connection(board, Via::new(1, 2)));
}

#[test]
fn condense_cuts_at_the_changes_of_layer() {
    let route = vec![
        strip(0, 1),
        strip(0, 2),
        wire(0, 2),
        wire(1, 2),
        wire(2, 2),
        strip(2, 2),
        strip(2, 3),
        strip(2, 4),
    ];
    assert_eq!(
        condense(&route),
        vec![
            section(strip(0, 1), strip(0, 2)),
            section(wire(0, 2), wire(2, 2)),
            section(strip(2, 2), strip(2, 4)),
        ]
    );
    // Runs of a single step give no section.
    assert_eq!(
        condense(&vec![strip(0, 2), wire(0, 2), wire(1, 2), strip(1, 2)]),
        vec![section(wire(0, 2), wire(1, 2))]
    );
    assert_eq!(condense(&vec![strip(0, 2)]), Vec::<LayerStartEndVia>::new());
    assert_eq!(
        condense(&vec![strip(0, 2), wire(0, 2), strip(0, 2)]),
        Vec::<LayerStartEndVia>::new()
    );
    assert_eq!(
        condense(&vec![strip(3, 3), strip(3, 2)]),
        vec![section(strip(3, 3), strip(3, 2))]
    );
    let router = Router::new(Board::new(3, 3));
    assert_eq!(
        router.condense_route(&vec![strip(0, 0), strip(0, 1), wire(0, 1)]),
        vec![section(strip(0, 0), strip(0, 1))]
    );
}

#[test]
fn availability() {
    let board = Board::new(4, 4);
    let mut router = Router::new(board);
    let mut nets = Nets::new(board);
    let start = Via::new(0, 0);
    nets.connect(board, start, Via::new(0, 1));
    nets.connect(board, Via::new(2, 2), Via::new(2, 3));
    router.block(board, Via::new(1, 1));
    // Off the board.
    assert!(!router.is_available(board, &nets, strip(4, 0), start));
    assert!(!router.is_available(board, &nets, wire(0, 4), start));
    // The wire layer: free unless taken.
    assert!(router.is_available(board, &nets, wire(0, 0), start));
    assert!(!router.is_available(board, &nets, wire(1, 1), start));
    assert!(router.is_blocked(board, Via::new(1, 1)));
    // The strip layer: free, or of our net.
    assert!(router.is_available(board, &nets, strip(3, 3), start));
    assert!(router.is_available(board, &nets, strip(0, 1), start));
    assert!(!router.is_available(board, &nets, strip(2, 2), start));
    assert!(router.is_available(board, &nets, strip(2, 2), Via::new(2, 3)));
    assert!(!router.is_any_pin(board, Via::new(3, 3)));
    *router.wire_to_via_ref(board, Via::new(3, 3)) = ValidVia::from_via(Via::new(0, 3));
    assert_eq!(router.wire_to_via(board, Via::new(3, 3)), ValidVia::from_via(Via::new(0, 3)));
    assert!(!router.wire_to_via(board, Via::new(0, 3)).is_valid);
}

fn circuit_with_two_components() -> Circuit {
    let mut circuit = Circuit::new();
    circuit.set_package("dip".to_string(), vec![OffsetVia::new(0, 0), OffsetVia::new(1, 0), OffsetVia::new(1, -2)]);
    circuit.set_package("one".to_string(), vec![OffsetVia::new(0, 0)]);
    circuit.set_component("u1".to_string(), Component::new("dip".to_string(), Via::new(1, 3)));
    circuit.set_component("j1".to_string(), Component::new("one".to_string(), Via::new(4, 0)));
    circuit.connection_vec.push(Connection::new(
        ConnectionPoint::new("u1".to_string(), 2),
        ConnectionPoint::new("j1".to_string(), 0),
    ));
    circuit
}

#[test]
fn circuit_positions() {
    let board = Board::new(5, 5);
    let circuit = circuit_with_two_components();
    assert!(circuit.is_valid(board));
    assert!(!circuit.is_valid(Board::new(2, 5)));
    assert_eq!(circuit.find_package(&"one".to_string()), Some(1));
    assert_eq!(circuit.find_component(&"j1".to_string()), Some(1));
    assert_eq!(circuit.find_component(&"j2".to_string()), None);
    assert_eq!(circuit.first_package(&"dip".to_string()), 0);
    assert_eq!(circuit.first_component(&"u1".to_string()), 0);
    assert_eq!(
        circuit.calc_component_pins(board, &"u1".to_string()),
        vec![Via::new(1, 3), Via::new(2, 3), Via::new(2, 1)]
    );
    assert_eq!(circuit.component_pins_at(board, 1), vec![Via::new(4, 0)]);
    let footprint = circuit.calc_component_footprint(board, "u1".to_string());
    assert_eq!((footprint.start, footprint.end), (Via::new(1, 1), Via::new(2, 3)));
    let footprint = circuit.footprint_at(board, 1);
    assert_eq!((footprint.start, footprint.end), (Via::new(4, 0), Via::new(4, 0)));
    let vias = circuit.gen_connection_via_vec(board);
    assert_eq!(vias.len(), 1);
    assert_eq!((vias[0].start, vias[0].end), (Via::new(2, 1), Via::new(4, 0)));
    assert!(!circuit.component_name_to_component_map[0].1.is_dont_care(1));
    let copy = circuit.duplicate();
    assert_eq!(copy.package_to_pos_map, circuit.package_to_pos_map);
    assert_eq!(copy.connection_vec.len(), 1);
    assert_eq!(copy.component_name_to_component_map[0].1.pin0_abs_pos, Via::new(1, 3));
}

#[test]
fn router_setup() {
    let board = Board::new(5, 5);
    let mut layout = Layout::new();
    layout.board = board;
    layout.circuit = circuit_with_two_components();
    layout.circuit.component_name_to_component_map[0].1.dont_care_pin_idx_set.push(1);
    let mut router = Router::new(board);
    let mut nets = Nets::new(board);
    router.block_component_footprints(board, &layout);
    for y in 0..5 {
        for x in 0..5 {
            let inside = (1..=2).contains(&x) && (1..=3).contains(&y) || (x, y) == (4, 0);
            assert_eq!(router.is_blocked(board, Via::new(x, y)), inside, "{},{}", x, y);
        }
    }
    router.join_all_connections(board, &layout, &mut nets);
    assert!(nets.is_connected(board, Via::new(2, 1), Via::new(4, 0)));
    assert!(!nets.has_connection(board, Via::new(1, 3)));
    router.register_active_component_pins(board, &layout, &mut nets);
    assert!(router.is_any_pin(board, Via::new(1, 3)));
    assert!(!router.is_any_pin(board, Via::new(2, 3))); // declared unused
    assert!(router.is_any_pin(board, Via::new(2, 1)));
    assert!(router.is_any_pin(board, Via::new(4, 0)));
    assert!(!router.is_any_pin(board, Via::new(0, 0)));
    assert!(nets.has_connection(board, Via::new(1, 3)));
    assert!(!nets.has_connection(board, Via::new(2, 3)));
    assert!(!nets.is_connected(board, Via::new(1, 3), Via::new(2, 1)));
    assert!(nets.is_connected(board, Via::new(2, 1), Via::new(4, 0)));
}

#[test]
fn strip_cuts_where_a_used_strip_meets_a_new_occupant() {
    let board = Board::new(3, 8);
    let router = Router::new(board);
    let mut nets = Nets::new(board);
    // Column 0: one net at rows 0 and 1, another at rows 2 and 3, a third at row 6.
    nets.connect(board, Via::new(0, 0), Via::new(0, 1));
    nets.connect(board, Via::new(0, 2), Via::new(0, 3));
    nets.register_pin(board, Via::new(0, 6));
    // Column 1: a single net from row 3 on.
    nets.connect(board, Via::new(1, 3), Via::new(1, 4));
    // Column 2: one net in two parts with a gap between.
    nets.connect(board, Via::new(2, 1), Via::new(2, 5));
    assert_eq!(
        router.find_strip_cuts(board, &nets),
        vec![Via::new(0, 2), Via::new(0, 6), Via::new(2, 5)]
    );
}

#[test]
fn jumpers_are_recorded_at_both_ends() {
    let board = Board::new(6, 3);
    let mut router = Router::new(board);
    let sections = vec![
        section(strip(0, 0), strip(0, 1)),
        section(wire(0, 1), wire(3, 1)),
        section(strip(3, 1), strip(3, 2)),
        section(wire(5, 2), wire(4, 2)),
    ];
    router.add_wire_jumps(board, &sections);
    assert_eq!(router.wire_to_via(board, Via::new(0, 1)), ValidVia::from_via(Via::new(3, 1)));
    assert_eq!(router.wire_to_via(board, Via::new(3, 1)), ValidVia::from_via(Via::new(0, 1)));
    assert_eq!(router.wire_to_via(board, Via::new(5, 2)), ValidVia::from_via(Via::new(4, 2)));
    assert_eq!(router.wire_to_via(board, Via::new(4, 2)), ValidVia::from_via(Via::new(5, 2)));
    assert!(!router.wire_to_via(board, Via::new(0, 0)).is_valid);
    assert!(!router.wire_to_via(board, Via::new(1, 1)).is_valid);
    router.block_route(board, &vec![strip(0, 0), wire(0, 0), wire(1, 0), strip(1, 0)]);
    assert!(router.is_blocked(board, Via::new(0, 0)));
    assert!(router.is_blocked(board, Via::new(1, 0)));
    assert!(!router.is_blocked(board, Via::new(2, 0)));
}

fn search(board: Board, settings: Settings, router: &Router, nets: &Nets, a: Via, b: Via) -> (Vec<LayerVia>, usize) {
    let mut layout = Layout::new();
    layout.board = board;
    layout.settings = settings;
    let mut ucs = UniformCostSearch::new(board);
    let route = ucs.find_lowest_cost_route(board, &mut layout, nets, router, StartEndVia::new(a, b));
    (route, layout.cost)
}

#[test]
fn open_board_costs_the_distance_and_two_changes_of_layer() {
    let board = Board::new(6, 5);
    let router = Router::new(board);
    let nets = Nets::new(board);
    let uniform = Settings { wire_cost: 2, strip_cost: 2, via_cost: 2, cut_cost: 4 };
    for &(a, b) in &[((1, 1), (4, 3)), ((4, 3), (1, 1)), ((0, 4), (5, 0)), ((5, 2), (0, 2))] {
        let (a, b) = (Via::new(a.0, a.1), Via::new(b.0, b.1));
        let (route, cost) = search(board, uniform, &router, &nets, a, b);
        let distance = a.x.abs_diff(b.x) + a.y.abs_diff(b.y);
        assert_eq!(cost, 2 * distance + 2 * 2, "{:?} {:?}", a, b);
        assert_eq!(route.len(), distance + 3);
        assert_eq!(route[0], LayerVia::from_via(a, false));
        assert_eq!(route[route.len() - 1], LayerVia::from_via(b, false));
    }
    // In one column no layer is changed.
    let (route, cost) = search(board, uniform, &router, &nets, Via::new(2, 0), Via::new(2, 4));
    assert_eq!(cost, 2 * 4);
    assert_eq!(route.len(), 5);
    // The start is the end.
    let (route, cost) = search(board, uniform, &router, &nets, Via::new(2, 2), Via::new(2, 2));
    assert_eq!(route, vec![strip(2, 2)]);
    assert_eq!(cost, 0);
    // With the usual costs the route leaves the strip at once, where a hole of strip costs
    // more than a hole of wire.
    let (route, cost) = search(board, Settings::new(), &router, &nets, Via::new(1, 1), Via::new(4, 3));
    assert_eq!(cost, 3 + 3 * 1 + 3 + 2 * 2);
    assert_eq!(
        condense(&route),
        vec![section(wire(1, 1), wire(4, 1)), section(strip(4, 1), strip(4, 3))]
    );
}

#[test]
fn closed_wire_layer_leaves_the_strips_only() {
    let board = Board::new(4, 5);
    let mut router = Router::new(board);
    let nets = Nets::new(board);
    for y in 0..5 {
        for x in 0..4 {
            router.block(board, Via::new(x, y));
        }
    }
    let (route, cost) = search(board, Settings::new(), &router, &nets, Via::new(1, 0), Via::new(1, 4));
    assert_eq!(route, vec![strip(1, 0), strip(1, 1), strip(1, 2), strip(1, 3), strip(1, 4)]);
    assert_eq!(cost, 4 * 2);
    let (route, cost) = search(board, Settings::new(), &router, &nets, Via::new(1, 1), Via::new(2, 1));
    assert_eq!(route, Vec::<LayerVia>::new());
    assert_eq!(cost, 0);
}

#[test]
fn corners_of_the_board_are_routed() {
    let board = Board::new(3, 2);
    let router = Router::new(board);
    let nets = Nets::new(board);
    let corners = [Via::new(0, 0), Via::new(2, 0), Via::new(0, 1), Via::new(2, 1)];
    for &a in &corners {
        for &b in &corners {
            let (route, _) = search(board, Settings::new(), &router, &nets, a, b);
            assert!(!route.is_empty());
            assert!(route.iter().all(|n| n.via.x < 3 && n.via.y < 2));
        }
    }
    // A board of a single hole.
    let single = Board::new(1, 1);
    let (route, cost) = search(
        single,
        Settings::new(),
        &Router::new(single),
        &Nets::new(single),
        Via::new(0, 0),
        Via::new(0, 0),
    );
    assert_eq!((route, cost), (vec![strip(0, 0)], 0));
}

#[test]
fn a_foreign_net_is_gone_around() {
    let board = Board::new(3, 3);
    let router = Router::new(board);
    let mut nets = Nets::new(board);
    // A foreign net lies across column 1 on the strip layer; the wire layer is free.
    nets.connect(board, Via::new(1, 1), Via::new(1, 1));
    let (route, cost) = search(board, Settings::new(), &router, &nets, Via::new(1, 0), Via::new(1, 2));
    // Up, one hole aside, across the row... the cheapest way is over the wire layer next door.
    assert!(!route.is_empty());
    assert!(!route.contains(&strip(1, 1)));
    assert_eq!(cost, 3 + 1 + 3 + 2 * 2 + 3 + 1 + 3);
}

#[test]
fn worker_decisions() {
    assert_eq!(worker_step(WorkerState::Polling, WorkerEvent::StopPolled { stopped: false }), (WorkerState::Reserving, WorkerAction::Reserve));
    assert_eq!(worker_step(WorkerState::Polling, WorkerEvent::StopPolled { stopped: true }), (WorkerState::Stopped, WorkerAction::Finish));
    assert_eq!(
        worker_step(WorkerState::Reserving, WorkerEvent::Reserved { ordering_idx: None }),
        (WorkerState::Polling, WorkerAction::WaitAndPoll)
    );
    assert_eq!(
        worker_step(WorkerState::Reserving, WorkerEvent::Reserved { ordering_idx: Some(7) }),
        (WorkerState::Routing { ordering_idx: 7 }, WorkerAction::Route { ordering_idx: 7 })
    );
    assert_eq!(
        worker_step(WorkerState::Routing { ordering_idx: 7 }, WorkerEvent::Routed { aborted: false, stale: false }),
        (WorkerState::Polling, WorkerAction::ReleaseAndPoll { ordering_idx: 7 })
    );
    assert_eq!(
        worker_step(WorkerState::Routing { ordering_idx: 7 }, WorkerEvent::Routed { aborted: true, stale: false }),
        (WorkerState::Polling, WorkerAction::DiscardAndPoll)
    );
    assert_eq!(
        worker_step(WorkerState::Routing { ordering_idx: 7 }, WorkerEvent::Routed { aborted: false, stale: true }),
        (WorkerState::Polling, WorkerAction::DiscardAndPoll)
    );
    assert_eq!(worker_step(WorkerState::Polling, WorkerEvent::Reserved { ordering_idx: Some(1) }), (WorkerState::Stopped, WorkerAction::Finish));
    // A worker that waits for the generation to end still sees the stop flag.
    let (state, action) = worker_step(WorkerState::Reserving, WorkerEvent::Reserved { ordering_idx: None });
    assert_eq!(action, WorkerAction::WaitAndPoll);
    assert_eq!(worker_step(state, WorkerEvent::StopPolled { stopped: true }), (WorkerState::Stopped, WorkerAction::Finish));
    assert_eq!(worker_step(state, WorkerEvent::StopPolled { stopped: false }), (WorkerState::Reserving, WorkerAction::Reserve));
    assert_eq!(worker_step(WorkerState::Stopped, WorkerEvent::StopPolled { stopped: false }), (WorkerState::Stopped, WorkerAction::Finish));
}

#[test]
fn promotion_of_the_best_layout() {
    let layout = |completed: usize, cost: usize, stamp: u64| {
        let mut l = Layout::new();
        l.n_completed_routes = completed;
        l.cost = cost;
        l.update_base_timestamp(stamp);
        l
    };
    let input = layout(0, 0, 5);
    assert!(should_promote(&layout(3, 90, 5), &layout(2, 10, 5), &input));
    assert!(should_promote(&layout(3, 9, 5), &layout(3, 10, 5), &input));
    assert!(!should_promote(&layout(3, 10, 5), &layout(3, 10, 5), &input));
    assert!(!should_promote(&layout(2, 1, 5), &layout(3, 10, 5), &input));
    // A best layout of another input is always replaced.
    assert!(should_promote(&layout(0, 0, 5), &layout(9, 1, 4), &input));
    assert!(input.is_based_on(&layout(1, 1, 5)));
    assert!(!input.is_based_on(&layout(1, 1, 6)));
    assert_eq!(*input.get_base_timestamp(), 5);
}

#[test]
fn layout_copies() {
    let mut layout = Layout::new();
    layout.board = Board::new(5, 5);
    layout.circuit = circuit_with_two_components();
    layout.cost = 17;
    layout.n_completed_routes = 2;
    layout.n_failed_routes = 1;
    layout.route_vec = vec![vec![section(strip(0, 0), strip(0, 1))], Vec::new()];
    layout.route_status_vec = vec![true, false, true];
    layout.strip_cut_vec = vec![Via::new(1, 1)];
    layout.set_idx_vec = vec![0, usize::MAX];
    layout.via_set_vec = vec![vec![Via::new(0, 0)]];
    layout.layout_info_vec = vec!["note".to_string()];
    layout.update_base_timestamp(9);
    let copy = layout.thread_safe_copy();
    assert_eq!(copy.board, layout.board);
    assert_eq!(copy.cost, 17);
    assert_eq!(copy.n_completed_routes, 2);
    assert_eq!(copy.n_failed_routes, 1);
    assert_eq!(copy.route_vec, layout.route_vec);
    assert_eq!(copy.route_status_vec, layout.route_status_vec);
    assert_eq!(copy.strip_cut_vec, layout.strip_cut_vec);
    assert_eq!(copy.set_idx_vec, layout.set_idx_vec);
    assert_eq!(copy.via_set_vec, layout.via_set_vec);
    assert_eq!(copy.layout_info_vec, layout.layout_info_vec);
    assert_eq!(copy.circuit.package_to_pos_map, layout.circuit.package_to_pos_map);
    assert_eq!(copy.circuit.connection_vec.len(), 1);
    assert!(copy.is_based_on(&layout));
    let mut other = Layout::new();
    other.copy(&layout);
    assert_eq!(other.route_vec, layout.route_vec);
    assert_eq!(other.base_timestamp, 9);
}
