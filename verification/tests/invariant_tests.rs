use stripboard_autorouter::board::Board;
use stripboard_autorouter::circuit::{copy_texts, Component, Connection, ConnectionPoint};
use stripboard_autorouter::layout::Layout;
use stripboard_autorouter::nets::Nets;
use stripboard_autorouter::router::{copy_sets, is_routable, Router};
use stripboard_autorouter::thread_stop::ThreadStop;
use stripboard_autorouter::ucs::UniformCostSearch;
use stripboard_autorouter::util::{copy_of, hex_pair_text, hex_text, number_text};
use stripboard_autorouter::via::{LayerVia, OffsetVia, Via};

fn circuit_layout() -> Layout {
    let mut layout = Layout::new();
    layout.board = Board::new(10, 8);
    let c = &mut layout.circuit;
    c.set_package("dip4".to_string(), vec![
        OffsetVia::new(0, 0),
        OffsetVia::new(1, 0),
        OffsetVia::new(1, 3),
        OffsetVia::new(0, 3),
    ]);
    c.set_package("res".to_string(), vec![OffsetVia::new(0, 0), OffsetVia::new(0, 2)]);
    c.set_package("pad".to_string(), vec![OffsetVia::new(0, 0)]);
    c.set_component("u1".to_string(), Component::new("dip4".to_string(), Via::new(4, 2)));
    c.set_component("r1".to_string(), Component::new("res".to_string(), Via::new(1, 1)));
    c.set_component("r2".to_string(), Component::new("res".to_string(), Via::new(8, 4)));
    c.set_component("pad1".to_string(), Component::new("pad".to_string(), Via::new(0, 7)));
    c.set_component("pad2".to_string(), Component::new("pad".to_string(), Via::new(9, 0)));
    let connect = |c: &mut stripboard_autorouter::circuit::Circuit, a: &str, i: usize, b: &str, j: usize| {
        c.connection_vec.push(Connection::new(
            ConnectionPoint::new(a.to_string(), i),
            ConnectionPoint::new(b.to_string(), j),
        ));
    };
    connect(c, "u1", 0, "r1", 0);
    connect(c, "u1", 1, "r2", 0);
    connect(c, "u1", 2, "pad2", 0);
    connect(c, "u1", 3, "pad1", 0);
    connect(c, "r1", 1, "r2", 1);
    connect(c, "r1", 0, "pad1", 0);
    layout
}

fn check_invariants(order: Vec<usize>) -> Layout {
    let mut layout = circuit_layout();
    assert!(is_routable(&layout, &order));
    let board = layout.board;
    let mut router = Router::new(board);
    let mut nets = Nets::new(board);
    let stop = ThreadStop::new();
    let aborted = router.route(board, &mut layout, &mut nets, &order, &stop);
    assert!(!aborted);
    assert_eq!(layout.n_completed_routes + layout.n_failed_routes, order.len());
    assert_eq!(layout.route_vec.len(), layout.n_completed_routes);
    assert_eq!(layout.route_status_vec.len(), 6);
    let mut distinct = order.clone();
    distinct.sort();
    distinct.dedup();
    if distinct.len() == order.len() {
        assert_eq!(layout.route_status_vec.iter().filter(|&&s| s).count(), layout.n_completed_routes);
    }
    for c in 0..6 {
        if !order.contains(&c) {
            assert!(!layout.route_status_vec[c]);
        }
    }

    // Every section lies on one layer and along it; the wire layer is taken under every
    // wire section.
    for route in &layout.route_vec {
        for section in route {
            assert_eq!(section.start.is_wire_layer, section.end.is_wire_layer);
            if section.start.is_wire_layer {
                assert_eq!(section.start.via.y, section.end.via.y);
                let (a, b) = (section.start.via.x, section.end.via.x);
                for x in a.min(b)..=a.max(b) {
                    assert!(router.is_blocked(board, Via::new(x, section.start.via.y)));
                }
            } else {
                assert_eq!(section.start.via.x, section.end.via.x);
            }
        }
    }
    // The two ends of a jumper point at each other, unless a later jumper shares an end.
    let wires: Vec<_> = layout.route_vec.iter().flatten().filter(|s| s.start.is_wire_layer).collect();
    for (i, a) in wires.iter().enumerate() {
        let touched_later = wires[i + 1..].iter().any(|b| {
            let shares = [b.start.via, b.end.via].iter().any(|v| *v == a.start.via || *v == a.end.via);
            let same = (b.start.via == a.start.via && b.end.via == a.end.via)
                || (b.start.via == a.end.via && b.end.via == a.start.via);
            shares && !same
        });
        if !touched_later {
            let far = router.wire_to_via(board, a.start.via);
            assert!(far.is_valid && far.via == a.end.via);
            let back = router.wire_to_via(board, a.end.via);
            assert!(back.is_valid && back.via == a.start.via);
        }
    }
    // The two ends of every connection are in one net, routed or not.
    for ends in layout.circuit.gen_connection_via_vec(board) {
        assert!(nets.is_connected(board, ends.start, ends.end));
    }
    // Between two occupied cells of a column that follow each other and are not connected,
    // the strip is cut exactly once, just above the lower one.
    let occupied = |v: Via| nets.has_connection(board, v) || router.is_any_pin(board, v);
    for x in 0..board.w {
        let cells: Vec<usize> = (0..board.h).filter(|&y| occupied(Via::new(x, y))).collect();
        for pair in cells.windows(2) {
            let (upper, lower) = (Via::new(x, pair[0]), Via::new(x, pair[1]));
            let cuts = layout.strip_cut_vec.iter().filter(|c| c.x == x && c.y > upper.y && c.y <= lower.y).count();
            if !nets.is_connected(board, upper, lower) {
                assert_eq!(cuts, 1);
                assert!(layout.strip_cut_vec.contains(&lower));
            } else if pair[1] == pair[0] + 1 {
                assert_eq!(cuts, 0);
            }
        }
    }
    // The cuts are listed column by column, each column from the top.
    for pair in layout.strip_cut_vec.windows(2) {
        assert!((pair[0].x, pair[0].y) < (pair[1].x, pair[1].y));
    }
    // The layout holds the nets as they stand.
    assert_eq!(layout.set_idx_vec, nets.set_idx_vec);
    assert_eq!(layout.via_set_vec, nets.via_set_vec);
    layout
}

#[test]
fn invariants_hold_in_every_order() {
    let orders: Vec<Vec<usize>> = vec![
        vec![0, 1, 2, 3, 4, 5],
        vec![5, 4, 3, 2, 1, 0],
        vec![2, 0, 4, 1, 5, 3],
        vec![3, 3, 0],
        vec![],
    ];
    for order in orders {
        check_invariants(order);
    }
}

#[test]
fn routing_is_repeatable() {
    let a = check_invariants(vec![0, 1, 2, 3, 4, 5]);
    let b = check_invariants(vec![0, 1, 2, 3, 4, 5]);
    assert_eq!(a.route_vec, b.route_vec);
    assert_eq!(a.cost, b.cost);
    assert_eq!(a.strip_cut_vec, b.strip_cut_vec);
    assert!(a.n_completed_routes >= 4);
}

#[test]
fn search_tables() {
    let board = Board::new(3, 2);
    let mut ucs = UniformCostSearch::new(board);
    let strip = LayerVia::from_via(Via::new(1, 1), false);
    let wire = LayerVia::from_via(Via::new(1, 1), true);
    assert_eq!(ucs.get_cost(board, strip), usize::MAX);
    ucs.set_cost(board, strip, 7);
    assert_eq!(ucs.get_cost(board, strip), 7);
    assert_eq!(ucs.get_cost(board, wire), usize::MAX);
    ucs.set_cost(board, wire, 9);
    assert_eq!(ucs.get_cost(board, wire), 9);
    assert_eq!(ucs.get_cost(board, strip), 7);
    assert_eq!(ucs.step_left(strip), LayerVia::from_via(Via::new(0, 1), false));
    assert_eq!(ucs.step_right(wire), LayerVia::from_via(Via::new(2, 1), true));
    assert_eq!(ucs.step_up(strip), LayerVia::from_via(Via::new(1, 0), false));
    assert_eq!(ucs.step_down(LayerVia::from_via(Via::new(1, 0), false)), strip);
    assert_eq!(ucs.step_to_wire(strip), wire);
    assert_eq!(ucs.step_to_strip(wire), strip);
}

#[test]
fn copies() {
    assert_eq!(copy_of(&vec![3usize, 1, 2]), vec![3, 1, 2]);
    assert_eq!(copy_of(&Vec::<Via>::new()), Vec::<Via>::new());
    let sets = vec![vec![Via::new(0, 0), Via::new(1, 1)], Vec::new(), vec![Via::new(2, 2)]];
    assert_eq!(copy_sets(&sets), sets);
    let texts = vec!["a".to_string(), String::new(), "xyz".to_string()];
    assert_eq!(copy_texts(&texts), texts);
}

#[test]
fn numbers_as_text() {
    assert_eq!(number_text(0), "0");
    assert_eq!(number_text(7), "7");
    assert_eq!(number_text(10), "10");
    assert_eq!(number_text(1205), "1205");
    assert_eq!(number_text(usize::MAX), usize::MAX.to_string());
    assert_eq!(hex_text(0), "0");
    assert_eq!(hex_text(15), "f");
    assert_eq!(hex_text(16), "10");
    assert_eq!(hex_text(0xabc), "abc");
    assert_eq!(hex_text(usize::MAX), format!("{:x}", usize::MAX));
    assert_eq!(hex_pair_text(0), "00");
    assert_eq!(hex_pair_text(9), "09");
    assert_eq!(hex_pair_text(255), "ff");
    assert_eq!(hex_pair_text(256), "100");
}
