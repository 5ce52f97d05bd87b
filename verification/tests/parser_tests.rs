use stripboard_autorouter::board::Board;
use stripboard_autorouter::circuit_parser::{
    parse_isize, parse_usize, CircuitFileParser, ErrorKind, ParseError,
};
use stripboard_autorouter::layout::Layout;
use stripboard_autorouter::router::route_layout;
use stripboard_autorouter::thread_stop::ThreadStop;
use stripboard_autorouter::via::{OffsetVia, Via};

fn lines(text: &[&str]) -> Vec<String> {
    text.iter().map(|s| s.to_string()).collect()
}

#[test]
fn parse_numbers() {
    assert_eq!(parse_usize("0"), Some(0));
    assert_eq!(parse_usize("007"), Some(7));
    assert_eq!(parse_usize("1234567890"), Some(1234567890));
    assert_eq!(parse_usize(""), None);
    assert_eq!(parse_usize("12a"), None);
    assert_eq!(parse_usize("-1"), None);
    assert_eq!(parse_usize(&usize::MAX.to_string()), Some(usize::MAX));
    assert_eq!(parse_usize(&format!("{}0", usize::MAX)), None);
    assert_eq!(parse_usize("99999999999999999999999999"), None);
    assert_eq!(parse_isize("-12"), Some(-12));
    assert_eq!(parse_isize("12"), Some(12));
    assert_eq!(parse_isize("-0"), Some(0));
    assert_eq!(parse_isize("-"), None);
    assert_eq!(parse_isize("--1"), None);
    assert_eq!(parse_isize(&isize::MAX.to_string()), Some(isize::MAX));
    assert_eq!(parse_isize(&format!("-{}", isize::MAX)), Some(-isize::MAX));
    assert_eq!(parse_isize(&isize::MIN.to_string()), None);
}

#[test]
fn normalize_white_space() {
    assert_eq!(CircuitFileParser::normalize("  board \t 5,5  "), "board 5,5");
    assert_eq!(CircuitFileParser::normalize("a  b   c"), "a b c");
    assert_eq!(CircuitFileParser::normalize("   "), "");
    assert_eq!(CircuitFileParser::normalize(""), "");
    assert_eq!(CircuitFileParser::normalize("x"), "x");
}

#[test]
fn parse_a_small_circuit_and_route_it() {
    let mut layout = Layout::new();
    let mut parser = CircuitFileParser::new();
    parser.parse_lines(
        &mut layout,
        &lines(&[
            "# a resistor across four holes",
            "board   5,5",
            "",
            "two 0,0 0,3",
            "r1 two 2,1",
            "r1.1 r1.2",
        ]),
    );
    assert_eq!(layout.circuit.parser_error_vec, Vec::<String>::new());
    assert!(!layout.circuit.has_parser_error());
    assert_eq!(layout.board, Board::new(5, 5));
    assert_eq!(layout.circuit.package_to_pos_map.len(), 1);
    assert_eq!(layout.circuit.package_to_pos_map[0].0, "two");
    assert_eq!(
        layout.circuit.package_to_pos_map[0].1,
        vec![OffsetVia::new(0, 0), OffsetVia::new(0, 3)]
    );
    assert_eq!(layout.circuit.component_name_to_component_map.len(), 1);
    assert_eq!(layout.circuit.component_name_to_component_map[0].0, "r1");
    let r1 = &layout.circuit.component_name_to_component_map[0].1;
    assert_eq!(r1.package_name, "two");
    assert_eq!(r1.pin0_abs_pos, Via::new(2, 1));
    assert_eq!(layout.circuit.connection_vec.len(), 1);
    assert_eq!(layout.circuit.connection_vec[0].start.component_name, "r1");
    assert_eq!(layout.circuit.connection_vec[0].start.pin_idx, 0);
    assert_eq!(layout.circuit.connection_vec[0].end.pin_idx, 1);
    assert_eq!(
        layout.circuit.gen_connection_via_vec(layout.board)[0].end,
        Via::new(2, 4)
    );
    let stop = ThreadStop::new();
    assert_eq!(route_layout(&mut layout, &vec![0], &stop), Some(false));
    assert_eq!(layout.n_completed_routes, 1);
    assert_eq!(layout.cost, 6);
}

#[test]
fn offset_moves_the_components_that_follow() {
    let mut layout = Layout::new();
    let mut parser = CircuitFileParser::new();
    parser.parse_lines(
        &mut layout,
        &lines(&["board 6,6", "one 0,0", "a one 1,2", "offset 2,-1", "b one 1,2", "offset 0,0", "c one 1,2"]),
    );
    assert_eq!(layout.circuit.parser_error_vec, Vec::<String>::new());
    let at = |i: usize| layout.circuit.component_name_to_component_map[i].1.pin0_abs_pos;
    assert_eq!(at(0), Via::new(1, 2));
    assert_eq!(at(1), Via::new(3, 1));
    assert_eq!(at(2), Via::new(1, 2));
    assert_eq!(parser.offset, OffsetVia::new(0, 0));
}

#[test]
fn errors_are_collected_line_by_line() {
    let mut layout = Layout::new();
    let mut parser = CircuitFileParser::new();
    parser.parse_lines(
        &mut layout,
        &lines(&[
            "board 5,5",
            "two 0,0 0,3",
            "r2 nopkg 1,1",
            "this is no line",
            "r1 two 2,2",
            "r1 two 2,1",
            "r1 3",
            "r9 1",
            "r1 2",
            "r1.1 r1.2",
            "r1.1 r1.3",
            "r1.1 r7.1",
            "r1.1 r1.1",
            "r1.0 r1.1",
        ]),
    );
    assert_eq!(
        layout.circuit.parser_error_vec,
        vec![
            "Error on line 3: r2 nopkg 1,1: Unknown package: nopkg".to_string(),
            "Error on line 4: this is no line: Unrecognized line".to_string(),
            "Error on line 5: r1 two 2,2: Component pin outside of board: r1.2".to_string(),
            "Error on line 7: r1 3: Invalid \"Don't Care\" pin number for r1: 3. Must be between 1 and 2 (including)"
                .to_string(),
            "Error on line 8: r9 1: Unknown component: r9".to_string(),
            "Error on line 10: r1.1 r1.2: Invalid pin number for r1.2. Pin has been set as \"Don't Care\""
                .to_string(),
            "Error on line 11: r1.1 r1.3: Invalid pin number for r1.3. Must be between 1 and 2 (including)"
                .to_string(),
            "Error on line 12: r1.1 r7.1: Unknown component: r7".to_string(),
            "Error on line 14: r1.0 r1.1: Invalid pin number for r1.0. Must be between 1 and 2 (including)"
                .to_string(),
        ]
    );
    assert!(layout.circuit.has_parser_error());
    // The connection of a pin with itself was dropped without a word.
    assert_eq!(layout.circuit.connection_vec.len(), 0);
    assert_eq!(
        layout.circuit.component_name_to_component_map[0].1.dont_care_pin_idx_set,
        vec![1]
    );
}

#[test]
fn each_form_is_told_apart() {
    let mut layout = Layout::new();
    let mut parser = CircuitFileParser::new();
    assert!(matches!(parser.parse_comment_or_empty(""), Ok(true)));
    assert!(matches!(parser.parse_comment_or_empty("# board 1,1"), Ok(true)));
    assert!(matches!(parser.parse_comment_or_empty("board 1,1"), Ok(false)));
    assert!(matches!(parser.parse_board(&mut layout, "board 7,9"), Ok(true)));
    assert_eq!(layout.board, Board::new(7, 9));
    assert!(matches!(parser.parse_board(&mut layout, "board 7"), Ok(false)));
    assert!(matches!(parser.parse_board(&mut layout, "board -7,9"), Ok(false)));
    let r = parser.parse_board(&mut layout, "board 99999999999999999999999,1");
    assert!(matches!(r, Err(ParseError::NumberTooLarge)));
    assert_eq!(layout.board, Board::new(7, 9));
    assert!(matches!(parser.parse_offset("offset -3,4"), Ok(true)));
    assert_eq!(parser.offset, OffsetVia::new(-3, 4));
    assert!(matches!(parser.parse_offset("offset 3"), Ok(false)));
    assert!(matches!(parser.parse_package(&mut layout, "dip 0,0 1,0 1,-2"), Ok(true)));
    assert_eq!(
        layout.circuit.package_to_pos_map[0].1,
        vec![OffsetVia::new(0, 0), OffsetVia::new(1, 0), OffsetVia::new(1, -2)]
    );
    assert!(matches!(parser.parse_package(&mut layout, "dip 0,0 x"), Ok(false)));
    // A package that is defined again is replaced.
    assert!(matches!(parser.parse_package(&mut layout, "dip 0,0"), Ok(true)));
    assert_eq!(layout.circuit.package_to_pos_map.len(), 1);
    assert_eq!(layout.circuit.package_to_pos_map[0].1, vec![OffsetVia::new(0, 0)]);
    assert!(matches!(parser.parse_component(&mut layout, "u1 dip 4,4"), Ok(true)));
    assert_eq!(
        layout.circuit.component_name_to_component_map[0].1.pin0_abs_pos,
        Via::new(1, 8)
    );
    let r = parser.parse_component(&mut layout, "u2 dip 1,1");
    assert!(matches!(r, Err(ParseError::PinOutsideBoard { pin: 1, .. })));
    let e = parser.parse_line(&mut layout, "what is this").unwrap_err();
    assert_eq!(e.kind(), ErrorKind::Unrecognized);
    assert_eq!(e.message(), "Unrecognized line");
    assert!(parser.parse_line(&mut layout, "# nothing").is_ok());
}

#[test]
fn component_lines_are_refused_in_a_fixed_order() {
    let mut layout = Layout::new();
    let mut parser = CircuitFileParser::new();
    parser.parse_lines(&mut layout, &lines(&["board 4,4", "two 0,0 0,3"]));
    // A number that does not fit comes before an unknown package.
    let r = parser.parse_component(&mut layout, "r1 nopkg 99999999999999999999999,1");
    assert!(matches!(r, Err(ParseError::NumberTooLarge)));
    let r = parser.parse_component(&mut layout, "r1 nopkg 1,99999999999999999999999");
    assert!(matches!(r, Err(ParseError::NumberTooLarge)));
    // An unknown package comes before a pin outside the board.
    let r = parser.parse_component(&mut layout, "r1 nopkg 9,9");
    assert!(matches!(r, Err(ParseError::UnknownPackage { .. })));
    let r = parser.parse_component(&mut layout, "r1 two 0,1");
    assert!(matches!(r, Err(ParseError::PinOutsideBoard { pin: 2, .. })));
    let r = parser.parse_component(&mut layout, "r1 two 4,0");
    assert!(matches!(r, Err(ParseError::PinOutsideBoard { pin: 1, .. })));
    assert_eq!(layout.circuit.component_name_to_component_map.len(), 0);
    // Everything fits: the line is taken.
    assert!(matches!(parser.parse_component(&mut layout, "r1 two 3,0"), Ok(true)));
    assert_eq!(layout.circuit.component_name_to_component_map.len(), 1);
    // An offset can move a component off the board, or onto it.
    assert!(matches!(parser.parse_offset("offset -4,0"), Ok(true)));
    let r = parser.place_component(&mut layout, "r2".to_string(), "two".to_string(), 3, 0);
    assert!(matches!(r, Err(ParseError::PinOutsideBoard { pin: 1, .. })));
    let r = parser.place_component(&mut layout, "r2".to_string(), "two".to_string(), 5, 0);
    assert!(r.is_ok());
    assert_eq!(
        layout.circuit.component_name_to_component_map[1].1.pin0_abs_pos,
        Via::new(1, 0)
    );
    assert!(matches!(parser.parse_component(&mut layout, "r1 two"), Ok(false)));
}

#[test]
fn dont_care_lines_look_the_component_up_first() {
    let mut layout = Layout::new();
    let mut parser = CircuitFileParser::new();
    parser.parse_lines(&mut layout, &lines(&["board 5,5", "dip 0,0 1,0 1,1 0,1", "u1 dip 1,1"]));
    assert_eq!(layout.circuit.parser_error_vec, Vec::<String>::new());
    // An unknown component is named as the cause, whatever the numbers are.
    let r = parser.parse_dont_care(&mut layout, "u9 99999999999999999999999");
    assert!(matches!(r, Err(ParseError::UnknownComponent { .. })));
    let r = parser.parse_dont_care(&mut layout, "u9 1 2");
    assert!(matches!(r, Err(ParseError::UnknownComponent { .. })));
    // The numbers are taken one after the other: the first that is no pin ends the line,
    // and those before it stay declared.
    let r = parser.parse_dont_care(&mut layout, "u1 2 7 99999999999999999999999");
    assert!(matches!(r, Err(ParseError::InvalidDontCarePin { pin: 7, max: 4, .. })));
    let marks = |layout: &Layout| layout.circuit.component_name_to_component_map[0].1.dont_care_pin_idx_set.clone();
    assert_eq!(marks(&layout), vec![1]);
    let r = parser.parse_dont_care(&mut layout, "u1 4 99999999999999999999999 3");
    assert!(matches!(r, Err(ParseError::NumberTooLarge)));
    assert_eq!(marks(&layout), vec![1, 3]);
    let r = parser.parse_dont_care(&mut layout, "u1 0");
    assert!(matches!(r, Err(ParseError::InvalidDontCarePin { pin: 0, max: 4, .. })));
    // A pin that is declared twice is kept once.
    assert!(matches!(parser.parse_dont_care(&mut layout, "u1 1 2 1"), Ok(true)));
    assert_eq!(marks(&layout), vec![1, 3, 0]);
    assert!(matches!(parser.parse_dont_care(&mut layout, "u1 dip 1,1"), Ok(false)));
}
