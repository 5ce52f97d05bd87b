use stripboard_autorouter::board::Board;
use stripboard_autorouter::circuit::{Component, Connection, ConnectionPoint};
use stripboard_autorouter::layout::Layout;
use stripboard_autorouter::nets::Nets;
use stripboard_autorouter::router::{is_routable, route_layout, Router};
use stripboard_autorouter::thread_stop::ThreadStop;
use stripboard_autorouter::via::{LayerStartEndVia, LayerVia, OffsetVia, StartEndVia, Via};

fn layout_on(w: usize, h: usize) -> Layout {
    let mut layout = Layout::new();
    layout.board = Board::new(w, h);
    layout
}

fn add_package(layout: &mut Layout, name: &str, offsets: &[(isize, isize)]) {
    let pins: Vec<OffsetVia> = offsets.iter().map(|&(x, y)| OffsetVia::new(x, y)).collect();
    layout.circuit.package_to_pos_map.push((name.to_string(), pins));
}

fn add_component(layout: &mut Layout, name: &str, package: &str, x: usize, y: usize) {
    layout
        .circuit
        .component_name_to_component_map
        .push((name.to_string(), Component::new(package.to_string(), Via::new(x, y))));
}

fn add_connection(layout: &mut Layout, a: &str, pin_a: usize, b: &str, pin_b: usize) {
    layout.circuit.connection_vec.push(Connection::new(
        ConnectionPoint::new(a.to_string(), pin_a),
        ConnectionPoint::new(b.to_string(), pin_b),
    ));
}

fn strip(x: usize, y: usize) -> LayerVia {
    LayerVia::from_via(Via::new(x, y), false)
}

fn wire(x: usize, y: usize) -> LayerVia {
    LayerVia::from_via(Via::new(x, y), true)
}

#[test]
fn straight_vertical_route() {
    let mut layout = layout_on(5, 5);
    add_package(&mut layout, "two", &[(0, 0), (0, 3)]);
    add_component(&mut layout, "r1", "two", 2, 1);
    add_connection(&mut layout, "r1", 0, "r1", 1);
    let stop = ThreadStop::new();
    let aborted = route_layout(&mut layout, &vec![0], &stop);
    assert_eq!(aborted, Some(false));
    assert_eq!(layout.n_completed_routes, 1);
    assert_eq!(layout.n_failed_routes, 0);
    assert_eq!(layout.route_status_vec, vec![true]);
    assert_eq!(layout.route_vec.len(), 1);
    assert_eq!(
        layout.route_vec[0],
        vec![LayerStartEndVia::from_layer_vias(strip(2, 1), strip(2, 4))]
    );
    assert_eq!(layout.strip_cut_vec.len(), 0);
    // Three steps along the strip; the route never changes the layer.
    assert_eq!(layout.cost, 3 * layout.settings.strip_cost);
    assert_eq!(layout.cost, 6);
}

#[test]
fn wire_jumper_between_two_pins() {
    // The wire layer over a pin is taken by the component, so the jumper starts and ends
    // one hole away from the pins.
    let mut layout = layout_on(5, 5);
    add_package(&mut layout, "one", &[(0, 0)]);
    add_component(&mut layout, "a", "one", 0, 2);
    add_component(&mut layout, "b", "one", 4, 2);
    add_connection(&mut layout, "a", 0, "b", 0);
    let stop = ThreadStop::new();
    assert_eq!(route_layout(&mut layout, &vec![0], &stop), Some(false));
    assert_eq!(layout.n_completed_routes, 1);
    assert_eq!(layout.n_failed_routes, 0);
    let s = layout.settings;
    assert_eq!(layout.cost, 2 * s.strip_cost + 2 * s.via_cost + 4 * s.wire_cost);
    assert_eq!(layout.cost, 14);
    assert_eq!(layout.route_vec.len(), 1);
    let sections = &layout.route_vec[0];
    assert_eq!(sections.len(), 3);
    assert!(!sections[0].start.is_wire_layer && !sections[0].end.is_wire_layer);
    assert!(sections[1].start.is_wire_layer && sections[1].end.is_wire_layer);
    assert!(!sections[2].start.is_wire_layer && !sections[2].end.is_wire_layer);
    assert_eq!(sections[0].start, strip(0, 2));
    assert_eq!(sections[2].end, strip(4, 2));
    assert_eq!(sections[1].start.via.y, sections[1].end.via.y);
    assert_eq!(sections[1].start.via.x, 0);
    assert_eq!(sections[1].end.via.x, 4);
    assert_eq!(layout.strip_cut_vec.len(), 0);
}

#[test]
fn wire_jumper_on_a_free_wire_layer() {
    // Without components over them, the two ends are joined by two changes of layer and
    // four steps along row 2.
    let board = Board::new(5, 5);
    let mut layout = layout_on(5, 5);
    let mut router = Router::new(board);
    let mut nets = Nets::new(board);
    let a = Via::new(0, 2);
    let b = Via::new(4, 2);
    nets.connect(board, a, b);
    let found = router.find_complete_route(board, &mut layout, &mut nets, StartEndVia::new(a, b));
    assert!(found);
    let s = layout.settings;
    assert_eq!(layout.cost, 4 * s.wire_cost + 2 * s.via_cost);
    assert_eq!(layout.cost, 10);
    assert_eq!(layout.n_completed_routes, 1);
    assert_eq!(
        layout.diag_route_step_vec,
        vec![strip(0, 2), wire(0, 2), wire(1, 2), wire(2, 2), wire(3, 2), wire(4, 2), strip(4, 2)]
    );
    assert_eq!(
        layout.route_vec,
        vec![vec![LayerStartEndVia::from_layer_vias(wire(0, 2), wire(4, 2))]]
    );
    // Every cell under the jumper is taken, and its ends point at each other.
    for x in 0..5 {
        assert!(router.is_blocked(board, Via::new(x, 2)));
    }
    assert!(!router.is_blocked(board, Via::new(2, 1)));
    let far = router.wire_to_via(board, a);
    assert!(far.is_valid);
    assert_eq!(far.via, b);
    let back = router.wire_to_via(board, b);
    assert!(back.is_valid);
    assert_eq!(back.via, a);
    assert!(!router.wire_to_via(board, Via::new(2, 2)).is_valid);
}

#[test]
fn wire_jump_shortcut_is_reused() {
    let board = Board::new(5, 5);
    let mut layout = layout_on(5, 5);
    let mut router = Router::new(board);
    let mut nets = Nets::new(board);
    let a = Via::new(0, 2);
    let b = Via::new(4, 2);
    nets.connect(board, a, b);
    assert!(router.find_complete_route(board, &mut layout, &mut nets, StartEndVia::new(a, b)));
    assert_eq!(layout.cost, 10);
    // A connection of the same net, from above one end of the jumper to below the other.
    let c = Via::new(0, 1);
    let d = Via::new(4, 3);
    nets.connect(board, a, c);
    nets.connect(board, a, d);
    assert!(router.find_complete_route(board, &mut layout, &mut nets, StartEndVia::new(c, d)));
    let s = layout.settings;
    // Down the strip, through the jumper in one step, down the strip.
    assert_eq!(layout.cost, 10 + 2 * s.strip_cost + s.wire_cost);
    assert_eq!(
        layout.diag_route_step_vec,
        vec![
            strip(0, 1),
            strip(0, 2),
            wire(0, 2),
            wire(1, 2),
            wire(2, 2),
            wire(3, 2),
            wire(4, 2),
            strip(4, 2),
            strip(4, 3)
        ]
    );
    assert_eq!(
        layout.route_vec[1],
        vec![
            LayerStartEndVia::from_layer_vias(strip(0, 1), strip(0, 2)),
            LayerStartEndVia::from_layer_vias(wire(0, 2), wire(4, 2)),
            LayerStartEndVia::from_layer_vias(strip(4, 2), strip(4, 3)),
        ]
    );
    assert_eq!(layout.n_completed_routes, 2);
}

#[test]
fn cut_between_two_nets_on_one_strip() {
    let mut layout = layout_on(5, 10);
    add_package(&mut layout, "two", &[(0, 0), (0, 2)]);
    add_component(&mut layout, "upper", "two", 2, 1);
    add_component(&mut layout, "lower", "two", 2, 5);
    add_connection(&mut layout, "upper", 0, "upper", 1);
    add_connection(&mut layout, "lower", 0, "lower", 1);
    let stop = ThreadStop::new();
    assert_eq!(route_layout(&mut layout, &vec![0, 1], &stop), Some(false));
    assert_eq!(layout.n_completed_routes, 2);
    assert_eq!(layout.n_failed_routes, 0);
    assert_eq!(layout.route_status_vec, vec![true, true]);
    assert_eq!(layout.strip_cut_vec, vec![Via::new(2, 5)]);
    let s = layout.settings;
    assert_eq!(layout.cost, 2 * s.strip_cost + 2 * s.strip_cost + s.cut_cost);
    assert_eq!(layout.cost, 12);
    assert_eq!(
        layout.route_vec,
        vec![
            vec![LayerStartEndVia::from_layer_vias(strip(2, 1), strip(2, 3))],
            vec![LayerStartEndVia::from_layer_vias(strip(2, 5), strip(2, 7))],
        ]
    );
    // The nets that the layout keeps are those of the two routes.
    let board = layout.board;
    let upper = layout.set_idx_vec[board.idx(Via::new(2, 1))];
    let lower = layout.set_idx_vec[board.idx(Via::new(2, 5))];
    assert_ne!(upper, usize::MAX);
    assert_ne!(lower, usize::MAX);
    assert_ne!(upper, lower);
    assert_eq!(layout.set_idx_vec[board.idx(Via::new(2, 2))], upper);
    assert_eq!(layout.set_idx_vec[board.idx(Via::new(2, 3))], upper);
    assert_eq!(layout.set_idx_vec[board.idx(Via::new(2, 7))], lower);
    assert_eq!(layout.set_idx_vec[board.idx(Via::new(2, 4))], usize::MAX);
    assert_eq!(layout.via_set_vec[upper].len(), 3);
}

#[test]
fn enclosed_target_is_unrouteable() {
    let mut layout = layout_on(3, 3);
    add_package(&mut layout, "one", &[(0, 0)]);
    add_component(&mut layout, "s", "one", 0, 0);
    add_component(&mut layout, "t", "one", 1, 1);
    add_component(&mut layout, "f1", "one", 1, 0);
    add_component(&mut layout, "f2", "one", 1, 2);
    add_connection(&mut layout, "s", 0, "t", 0);
    let stop = ThreadStop::new();
    assert_eq!(route_layout(&mut layout, &vec![0], &stop), Some(false));
    assert_eq!(layout.n_failed_routes, 1);
    assert_eq!(layout.n_completed_routes, 0);
    assert_eq!(layout.route_vec.len(), 0);
    assert_eq!(layout.route_status_vec, vec![false]);
    // Three pins of three nets follow each other in column 1.
    assert_eq!(layout.strip_cut_vec, vec![Via::new(1, 1), Via::new(1, 2)]);
    assert_eq!(layout.cost, 2 * layout.settings.cut_cost);
}

#[test]
fn adjacent_pins_give_a_two_step_route() {
    let mut layout = layout_on(5, 5);
    add_package(&mut layout, "pair", &[(0, 0), (0, 1)]);
    add_component(&mut layout, "c", "pair", 2, 1);
    add_connection(&mut layout, "c", 0, "c", 1);
    let stop = ThreadStop::new();
    assert_eq!(route_layout(&mut layout, &vec![0], &stop), Some(false));
    assert_eq!(layout.diag_route_step_vec, vec![strip(2, 1), strip(2, 2)]);
    assert_eq!(
        layout.route_vec,
        vec![vec![LayerStartEndVia::from_layer_vias(strip(2, 1), strip(2, 2))]]
    );
    assert_eq!(layout.cost, layout.settings.strip_cost);
}

#[test]
fn empty_ordering_on_empty_circuit() {
    let mut layout = layout_on(4, 4);
    let stop = ThreadStop::new();
    assert_eq!(route_layout(&mut layout, &Vec::new(), &stop), Some(false));
    assert_eq!(layout.route_vec.len(), 0);
    assert_eq!(layout.cost, 0);
    assert_eq!(layout.strip_cut_vec.len(), 0);
    assert_eq!(layout.n_completed_routes, 0);
    assert_eq!(layout.n_failed_routes, 0);
    assert_eq!(layout.set_idx_vec, vec![usize::MAX; 16]);
}

#[test]
fn empty_ordering_leaves_connections_untried() {
    let mut layout = layout_on(5, 10);
    add_package(&mut layout, "two", &[(0, 0), (0, 2)]);
    add_component(&mut layout, "upper", "two", 2, 1);
    add_component(&mut layout, "lower", "two", 2, 4);
    add_connection(&mut layout, "upper", 0, "lower", 0);
    let stop = ThreadStop::new();
    assert_eq!(route_layout(&mut layout, &Vec::new(), &stop), Some(false));
    assert_eq!(layout.route_vec.len(), 0);
    assert_eq!(layout.route_status_vec, vec![false]);
    assert_eq!(layout.n_completed_routes, 0);
    assert_eq!(layout.n_failed_routes, 0);
    // The first pins of the two components are joined, the second pin of the upper one
    // sits between them as a pin of its own: the strip is cut above it, above the first
    // pin of the lower one and above its second pin.
    assert_eq!(
        layout.strip_cut_vec,
        vec![Via::new(2, 3), Via::new(2, 4), Via::new(2, 6)]
    );
    assert_eq!(layout.cost, 3 * layout.settings.cut_cost);
}

#[test]
fn raised_stop_flag_aborts_before_the_first_connection() {
    let mut layout = layout_on(5, 5);
    add_package(&mut layout, "two", &[(0, 0), (0, 3)]);
    add_component(&mut layout, "r1", "two", 2, 1);
    add_connection(&mut layout, "r1", 0, "r1", 1);
    let stop = ThreadStop::new();
    assert!(!stop.is_stopped());
    stop.stop();
    assert!(stop.is_stopped());
    assert_eq!(route_layout(&mut layout, &vec![0], &stop), Some(true));
    assert_eq!(layout.n_completed_routes, 0);
    assert_eq!(layout.n_failed_routes, 0);
    assert_eq!(layout.route_vec.len(), 0);
}

#[test]
fn unroutable_inputs_are_refused() {
    let stop = ThreadStop::new();
    // A connection that names an unknown component.
    let mut layout = layout_on(5, 5);
    add_connection(&mut layout, "nobody", 0, "nobody", 1);
    assert!(!is_routable(&layout, &vec![0]));
    assert_eq!(route_layout(&mut layout, &vec![0], &stop), None);
    assert_eq!(layout.route_status_vec.len(), 0);
    // A pin outside the board.
    let mut layout = layout_on(5, 5);
    add_package(&mut layout, "two", &[(0, 0), (0, 3)]);
    add_component(&mut layout, "r1", "two", 2, 2);
    assert!(!is_routable(&layout, &Vec::new()));
    // An order that names a connection that does not exist.
    let mut layout = layout_on(5, 5);
    assert!(is_routable(&layout, &Vec::new()));
    assert!(!is_routable(&layout, &vec![0]));
    // A step that costs nothing.
    layout.settings.wire_cost = 0;
    assert!(!is_routable(&layout, &Vec::new()));
    // A connection to a pin that is declared unused.
    let mut layout = layout_on(5, 5);
    add_package(&mut layout, "two", &[(0, 0), (0, 1)]);
    add_component(&mut layout, "r1", "two", 2, 2);
    add_connection(&mut layout, "r1", 0, "r1", 1);
    assert!(is_routable(&layout, &vec![0]));
    layout.circuit.component_name_to_component_map[0].1.dont_care_pin_idx_set.push(1);
    assert!(!is_routable(&layout, &vec![0]));
    // Two components of one name.
    let mut layout = layout_on(5, 5);
    add_package(&mut layout, "one", &[(0, 0)]);
    add_component(&mut layout, "a", "one", 0, 0);
    add_component(&mut layout, "a", "one", 1, 1);
    assert!(!is_routable(&layout, &Vec::new()));
}

#[test]
fn next_step_follows_the_poll_of_the_stop_flag() {
    let board = Board::new(5, 5);
    let mut layout = layout_on(5, 5);
    layout.route_status_vec = vec![false, true];
    let mut router = Router::new(board);
    let mut nets = Nets::new(board);
    let a = Via::new(2, 1);
    let b = Via::new(2, 4);
    nets.connect(board, a, b);
    let ends = StartEndVia::new(a, b);
    // The flag was seen raised: nothing is tried.
    assert!(router.route_next(board, &mut layout, &mut nets, ends, 0, true));
    assert_eq!(layout.n_completed_routes + layout.n_failed_routes, 0);
    assert_eq!(layout.route_vec.len(), 0);
    assert_eq!(layout.route_status_vec, vec![false, true]);
    assert_eq!(layout.cost, 0);
    // The flag was seen lowered: the connection is tried.
    assert!(!router.route_next(board, &mut layout, &mut nets, ends, 0, false));
    assert_eq!(layout.n_completed_routes, 1);
    assert_eq!(layout.route_status_vec, vec![true, true]);
    assert_eq!(layout.route_vec, vec![vec![LayerStartEndVia::from_layer_vias(strip(2, 1), strip(2, 4))]]);
    assert_eq!(layout.cost, 6);
    // A connection without a route is counted as failed, and its status says so.
    nets.connect(board, Via::new(0, 0), Via::new(0, 0));
    let mut closed = Router::new(board);
    for y in 0..5 {
        for x in 0..5 {
            closed.block(board, Via::new(x, y));
        }
    }
    let ends = StartEndVia::new(Via::new(0, 0), Via::new(4, 4));
    assert!(!closed.route_next(board, &mut layout, &mut nets, ends, 1, false));
    assert_eq!(layout.n_failed_routes, 1);
    assert_eq!(layout.n_completed_routes, 1);
    assert_eq!(layout.route_status_vec, vec![true, false]);
    assert_eq!(layout.cost, 6);
}

#[test]
fn a_jumper_is_passed_at_the_cost_of_one_wire_step() {
    let board = Board::new(5, 5);
    let mut layout = layout_on(5, 5);
    let mut router = Router::new(board);
    let mut nets = Nets::new(board);
    let a = Via::new(0, 2);
    let b = Via::new(4, 2);
    nets.connect(board, a, b);
    assert!(router.find_complete_route(board, &mut layout, &mut nets, StartEndVia::new(a, b)));
    assert_eq!(layout.cost, 10);
    // The same two ends again: through the jumper, four holes wide, in one step.
    assert!(router.find_complete_route(board, &mut layout, &mut nets, StartEndVia::new(a, b)));
    assert_eq!(layout.cost, 10 + layout.settings.wire_cost);
    assert_eq!(
        layout.diag_route_step_vec,
        vec![strip(0, 2), wire(0, 2), wire(1, 2), wire(2, 2), wire(3, 2), wire(4, 2), strip(4, 2)]
    );
    // And back.
    assert!(router.find_complete_route(board, &mut layout, &mut nets, StartEndVia::new(b, a)));
    assert_eq!(layout.cost, 10 + 2 * layout.settings.wire_cost);
    assert_eq!(layout.diag_route_step_vec[0], strip(4, 2));
    assert_eq!(layout.diag_route_step_vec[6], strip(0, 2));
}
