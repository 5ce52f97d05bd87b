//! Reading a circuit from its text.
//!
//! The text is read line by line. Runs of white space count as one blank; empty lines
//! and lines that begin with `#` say nothing. Every other line has one of these forms:
//!
//! | line | meaning |
//! |---|---|
//! | `board W,H` | the size of the board |
//! | `offset X,Y` | what is added to the position of every component that follows |
//! | `<package> x,y x,y ...` | a package and the offsets of its pins |
//! | `<component> <package> X,Y` | a component and where its first pin sits |
//! | `<component> i j k ...` | pins of the component, counted from 1, that are not in use |
//! | `<component>.i <component>.j` | a connection between two pins, counted from 1 |
//!
//! The forms are told apart with regular expressions; what a line then does to the
//! layout is decided here.

use crate::circuit::{component_set, Component, Connection, ConnectionPoint};
use crate::layout::Layout;
use crate::util::{digits_of, number_text};
use crate::via::{coordinate_from_offset, OffsetVia, Via};
use regex::Regex;
use vstd::prelude::*;
use vstd::string::*;

verus! {

pub const WHITESPACE_SEP_RX: &'static str = r"\s+";

pub const COMMENT_OR_EMPTY_FULL_RX: &'static str = r"^(#.*)?$";

pub const BOARD_SIZE_RX: &'static str = r"^board (\d+),(\d+)$";

pub const OFFSET_RX: &'static str = r"^offset (-?\d+),(-?\d+)$";

pub const PKG_NAME_RX: &'static str = r"^(\w+)\s(.*)";

pub const PKG_POS_RX: &'static str = r"(-?\d+),(-?\d+)";

pub const COMPONENT_FULL_RX: &'static str = r"^(\w+) (\w+) ?(\d+),(\d+)$";

pub const CONNECTION_FULL_RX: &'static str = r"^(\w+)\.(\d+) (\w+)\.(\d+)$";

pub const DONT_CARE_FULL_RX: &'static str = r"^(\w+) ((\d+( |$))+)$";

/// What the first match of the regular expression `pattern` in `haystack` captures: for
/// each group, the whole match first, the text it took, or `None` where it took no part.
/// `None` where the expression does not match or is no regular expression.
pub uninterp spec fn regex_captures(pattern: Seq<char>, haystack: Seq<char>) -> Option<Seq<Option<Seq<char>>>>;

/// The pieces into which the matches of the regular expression `pattern` split `haystack`;
/// none where `pattern` is no regular expression.
pub uninterp spec fn regex_split(pattern: Seq<char>, haystack: Seq<char>) -> Seq<Seq<char>>;

/// The texts of the groups in `v`.
pub open spec fn group_texts(v: Seq<Option<String>>) -> Seq<Option<Seq<char>>> {
    Seq::new(
        v.len(),
        |i: int|
            match v[i] {
                Some(s) => Some(s@),
                None => None,
            },
    )
}

/// The texts in `v`.
pub open spec fn texts(v: Seq<String>) -> Seq<Seq<char>> {
    Seq::new(v.len(), |i: int| v[i]@)
}

/// Compiles `pattern` with `Regex::new` and calls `Regex::captures` on `haystack`. The
/// groups of the match are handed out as texts. The result is a function of the two
/// texts alone; it is named, not described.
#[verifier::external_body]
fn captures(pattern: &str, haystack: &str) -> (r: Option<Vec<Option<String>>>)
    ensures
        r.is_some() == regex_captures(pattern@, haystack@).is_some(),
        r.is_some() ==> group_texts(r.unwrap()@) == regex_captures(pattern@, haystack@).unwrap(),
{
    match Regex::new(pattern) {
        Ok(re) => re.captures(haystack).map(|c| c.iter().map(|m| m.map(|m| m.as_str().to_string())).collect()),
        Err(_) => None,
    }
}

/// Compiles `pattern` with `Regex::new` and calls `Regex::split` on `haystack`. The
/// pieces are handed out as texts. The result is a function of the two texts alone; it
/// is named, not described.
#[verifier::external_body]
fn split(pattern: &str, haystack: &str) -> (r: Vec<String>)
    ensures
        texts(r@) == regex_split(pattern@, haystack@),
{
    match Regex::new(pattern) {
        Ok(re) => re.split(haystack).map(|s| s.to_string()).collect(),
        Err(_) => Vec::new(),
    }
}

/// Whether `c` is one of the ten digits.
pub open spec fn is_digit(c: char) -> bool {
    '0' <= c && c <= '9'
}

/// Whether `s` is a run of digits, at least one.
pub open spec fn all_digits(s: Seq<char>) -> bool {
    s.len() > 0 && forall|i: int| 0 <= i < s.len() ==> is_digit(#[trigger] s[i])
}

/// The number that the digits of `s` write.
pub open spec fn decimal(s: Seq<char>) -> int
    decreases s.len(),
{
    if s.len() == 0 {
        0
    } else {
        decimal(s.drop_last()) * 10 + (s.last() as int - '0' as int)
    }
}

/// The number that `s` writes, with or without a sign, if it writes one.
pub open spec fn signed_decimal(s: Seq<char>) -> Option<int> {
    if s.len() > 0 && s[0] == '-' {
        if all_digits(s.drop_first()) {
            Some(-decimal(s.drop_first()))
        } else {
            None
        }
    } else if all_digits(s) {
        Some(decimal(s))
    } else {
        None
    }
}

proof fn lemma_decimal_grows(s: Seq<char>, n: int)
    requires
        0 <= n <= s.len(),
        forall|i: int| 0 <= i < s.len() ==> is_digit(#[trigger] s[i]),
    ensures
        0 <= decimal(s.subrange(0, n)) <= decimal(s),
    decreases s.len() - n,
{
    let p = s.subrange(0, n);
    lemma_decimal_nonnegative(p);
    if n < s.len() {
        let q = s.subrange(0, n + 1);
        assert(q.drop_last() =~= p);
        assert(is_digit(s[n]));
        assert(q.last() == s[n]);
        lemma_decimal_grows(s, n + 1);
    } else {
        assert(p =~= s);
    }
}

proof fn lemma_decimal_nonnegative(s: Seq<char>)
    requires
        forall|i: int| 0 <= i < s.len() ==> is_digit(#[trigger] s[i]),
    ensures
        0 <= decimal(s),
    decreases s.len(),
{
    if s.len() > 0 {
        assert(is_digit(s[s.len() - 1]));
        lemma_decimal_nonnegative(s.drop_last());
    }
}

/// The number that the digits of `s` write, where `s` is a run of digits and the number
/// fits the machine word.
pub fn parse_usize(s: &str) -> (r: Option<usize>)
    ensures
        r.is_some() <==> all_digits(s@) && decimal(s@) <= usize::MAX,
        r.is_some() ==> r.unwrap() == decimal(s@),
{
    let n = s.unicode_len();
    if n == 0 {
        return None;
    }
    let mut value: usize = 0;
    let mut i: usize = 0;
    while i < n
        invariant
            i <= n,
            n == s@.len(),
            forall|k: int| 0 <= k < i ==> is_digit(#[trigger] s@[k]),
            value == decimal(s@.subrange(0, i as int)),
        decreases n - i,
    {
        let c = s.get_char(i);
        if !(c >= '0' && c <= '9') {
            return None;
        }
        let digit: usize = (c as u32 - '0' as u32) as usize;
        proof {
            let q = s@.subrange(0, i as int + 1);
            assert(q.drop_last() =~= s@.subrange(0, i as int));
            assert(q.last() == c);
            assert(decimal(q) == value * 10 + digit);
            if value * 10 + digit > usize::MAX {
                // What follows can only make the number larger.
                if all_digits(s@) {
                    lemma_decimal_grows(s@, i as int + 1);
                }
            }
        }
        match value.checked_mul(10) {
            None => {
                return None;
            },
            Some(tens) => match tens.checked_add(digit) {
                None => {
                    return None;
                },
                Some(v) => {
                    value = v;
                },
            },
        }
        i += 1;
    }
    proof {
        assert(s@.subrange(0, n as int) =~= s@);
    }
    Some(value)
}

/// The number that `s` writes, with or without a sign, where it writes one that fits
/// the machine word.
pub fn parse_isize(s: &str) -> (r: Option<isize>)
    ensures
        r.is_some() <==> signed_decimal(s@).is_some() && isize::MIN < signed_decimal(s@).unwrap()
            <= isize::MAX,
        r.is_some() ==> r.unwrap() == signed_decimal(s@).unwrap(),
{
    let n = s.unicode_len();
    if n > 0 && s.get_char(0) == '-' {
        let rest = s.substring_char(1, n);
        proof {
            assert(rest@ =~= s@.drop_first());
        }
        match parse_usize(rest) {
            Some(v) => if v <= isize::MAX as usize {
                Some(-(v as isize))
            } else {
                None
            },
            None => None,
        }
    } else {
        match parse_usize(s) {
            Some(v) => if v <= isize::MAX as usize {
                Some(v as isize)
            } else {
                None
            },
            None => None,
        }
    }
}

/// Why a line could not be taken.
#[derive(Clone, Debug)]
pub enum ParseError {
    /// No form fits the line.
    Unrecognized,
    /// A number does not fit the machine word.
    NumberTooLarge,
    /// The component is of a package that was not defined.
    UnknownPackage { package_name: String },
    /// A pin of the component would lie outside the board; the pin counts from 1.
    PinOutsideBoard { component_name: String, pin: usize },
    /// No component has this name.
    UnknownComponent { component_name: String },
    /// The component has no pin of this number; pins count from 1 to `max`.
    InvalidDontCarePin { component_name: String, pin: usize, max: usize },
    /// The component has no pin of this number; pins count from 1 to `max`.
    InvalidPin { component_name: String, pin: usize, max: usize },
    /// The pin was declared to be not in use; pins count from 1.
    DontCarePin { component_name: String, pin: usize },
}

/// The kinds of causes.
#[derive(Clone, Copy, PartialEq, Eq, Structural, Debug)]
pub enum ErrorKind {
    Unrecognized,
    NumberTooLarge,
    UnknownPackage,
    PinOutsideBoard,
    UnknownComponent,
    InvalidDontCarePin,
    InvalidPin,
    DontCarePin,
}

impl ParseError {
    /// The kind of the cause.
    pub open spec fn spec_kind(&self) -> ErrorKind {
        match *self {
            ParseError::Unrecognized => ErrorKind::Unrecognized,
            ParseError::NumberTooLarge => ErrorKind::NumberTooLarge,
            ParseError::UnknownPackage { .. } => ErrorKind::UnknownPackage,
            ParseError::PinOutsideBoard { .. } => ErrorKind::PinOutsideBoard,
            ParseError::UnknownComponent { .. } => ErrorKind::UnknownComponent,
            ParseError::InvalidDontCarePin { .. } => ErrorKind::InvalidDontCarePin,
            ParseError::InvalidPin { .. } => ErrorKind::InvalidPin,
            ParseError::DontCarePin { .. } => ErrorKind::DontCarePin,
        }
    }

    /// The kind of the cause.
    pub fn kind(&self) -> (k: ErrorKind)
        ensures
            k == self.spec_kind(),
    {
        match self {
            ParseError::Unrecognized => ErrorKind::Unrecognized,
            ParseError::NumberTooLarge => ErrorKind::NumberTooLarge,
            ParseError::UnknownPackage { .. } => ErrorKind::UnknownPackage,
            ParseError::PinOutsideBoard { .. } => ErrorKind::PinOutsideBoard,
            ParseError::UnknownComponent { .. } => ErrorKind::UnknownComponent,
            ParseError::InvalidDontCarePin { .. } => ErrorKind::InvalidDontCarePin,
            ParseError::InvalidPin { .. } => ErrorKind::InvalidPin,
            ParseError::DontCarePin { .. } => ErrorKind::DontCarePin,
        }
    }

    /// The cause in words.
    pub open spec fn spec_message(&self) -> Seq<char> {
        match *self {
            ParseError::Unrecognized => "Unrecognized line"@,
            ParseError::NumberTooLarge => "Number too large"@,
            ParseError::UnknownPackage { package_name } => "Unknown package: "@ + package_name@,
            ParseError::PinOutsideBoard { component_name, pin } => "Component pin outside of board: "@
                + component_name@ + "."@ + digits_of(pin as nat),
            ParseError::UnknownComponent { component_name } => "Unknown component: "@ + component_name@,
            ParseError::InvalidDontCarePin { component_name, pin, max } => "Invalid \"Don't Care\" pin number for "@
                + component_name@ + ": "@ + digits_of(pin as nat) + ". Must be between 1 and "@ + digits_of(
                max as nat,
            ) + " (including)"@,
            ParseError::InvalidPin { component_name, pin, max } => "Invalid pin number for "@ + component_name@
                + "."@ + digits_of(pin as nat) + ". Must be between 1 and "@ + digits_of(max as nat)
                + " (including)"@,
            ParseError::DontCarePin { component_name, pin } => "Invalid pin number for "@ + component_name@
                + "."@ + digits_of(pin as nat) + ". Pin has been set as \"Don't Care\""@,
        }
    }

    /// The cause in words.
    pub fn message(&self) -> (r: String)
        ensures
            r@ == self.spec_message(),
    {
        match self {
            ParseError::Unrecognized => String::from_str("Unrecognized line"),
            ParseError::NumberTooLarge => String::from_str("Number too large"),
            ParseError::UnknownPackage { package_name } => String::from_str("Unknown package: ").concat(
                package_name.as_str(),
            ),
            ParseError::PinOutsideBoard { component_name, pin } => String::from_str(
                "Component pin outside of board: ",
            ).concat(component_name.as_str()).concat(".").concat(number_text(*pin).as_str()),
            ParseError::UnknownComponent { component_name } => String::from_str("Unknown component: ").concat(
                component_name.as_str(),
            ),
            ParseError::InvalidDontCarePin { component_name, pin, max } => String::from_str(
                "Invalid \"Don't Care\" pin number for ",
            ).concat(component_name.as_str()).concat(": ").concat(number_text(*pin).as_str()).concat(
                ". Must be between 1 and ",
            ).concat(number_text(*max).as_str()).concat(" (including)"),
            ParseError::InvalidPin { component_name, pin, max } => String::from_str(
                "Invalid pin number for ",
            ).concat(component_name.as_str()).concat(".").concat(number_text(*pin).as_str()).concat(
                ". Must be between 1 and ",
            ).concat(number_text(*max).as_str()).concat(" (including)"),
            ParseError::DontCarePin { component_name, pin } => String::from_str(
                "Invalid pin number for ",
            ).concat(component_name.as_str()).concat(".").concat(number_text(*pin).as_str()).concat(
                ". Pin has been set as \"Don't Care\"",
            ),
        }
    }
}

/// Whether the pin at offset `o` of a component whose first pin sits at (`px`, `py`) lies
/// on `board`.
pub open spec fn pin_inside(board: crate::board::Board, px: int, py: int, o: OffsetVia) -> bool {
    0 <= px + o.x < board.w && 0 <= py + o.y < board.h
}

/// Whether the first `n` pins of a component whose first pin sits at (`px`, `py`) lie on
/// `board`.
pub open spec fn pins_inside(board: crate::board::Board, px: int, py: int, offsets: Seq<OffsetVia>, n: int) -> bool {
    forall|i: int| 0 <= i < n ==> pin_inside(board, px, py, #[trigger] offsets[i])
}

/// The number of pins of the component called `name`; 0 where its package is not known.
pub open spec fn pin_count(circuit: crate::circuit::Circuit, name: Seq<char>) -> usize {
    let component = circuit.component_name_to_component_map@[circuit.component_index(name)].1;
    if circuit.has_package(component.package_name@) {
        circuit.package_to_pos_map@[circuit.package_index(component.package_name@)].1@.len() as usize
    } else {
        0
    }
}

/// How many of `pins`, from place `from` on, are taken before one is met that is no
/// number from 1 to `max`: the place of that one, or the length of `pins`.
pub open spec fn taken_pins(pins: Seq<usize>, max: int, from: int) -> int
    decreases pins.len() - from,
{
    if from < 0 || from >= pins.len() {
        pins.len() as int
    } else if !(1 <= pins[from] <= max) {
        from
    } else {
        taken_pins(pins, max, from + 1)
    }
}

/// What stands against declaring `pins` of the component called `name` to be not in use,
/// if anything does: the component is not known, or its package is not, or one of the
/// pins is no pin of it.
pub open spec fn dont_care_verdict(circuit: crate::circuit::Circuit, name: Seq<char>, pins: Seq<usize>) -> Option<
    ErrorKind,
> {
    if !circuit.has_component(name) {
        Some(ErrorKind::UnknownComponent)
    } else if !circuit.has_package(
        circuit.component_name_to_component_map@[circuit.component_index(name)].1.package_name@,
    ) {
        Some(ErrorKind::UnknownPackage)
    } else if taken_pins(pins, pin_count(circuit, name) as int, 0) < pins.len() {
        Some(ErrorKind::InvalidDontCarePin)
    } else {
        None
    }
}

/// Whether `c1` is `c0` with the first `m` of `pins`, counted from 1, declared to be not
/// in use for the component called `name`, beside those that were so before; everything
/// else is as it was.
#[verifier::opaque]
pub open spec fn pins_marked(
    c0: crate::circuit::Circuit,
    c1: crate::circuit::Circuit,
    name: Seq<char>,
    pins: Seq<usize>,
    m: int,
) -> bool {
    let c = c0.component_index(name);
    &&& c1.component_name_to_component_map@.len() == c0.component_name_to_component_map@.len()
    &&& forall|k: int|
        0 <= k < c0.component_name_to_component_map@.len() && k != c
            ==> #[trigger] c1.component_name_to_component_map@[k] == c0.component_name_to_component_map@[k]
    &&& c1.component_name_to_component_map@[c].0 == c0.component_name_to_component_map@[c].0
    &&& c1.component_name_to_component_map@[c].1.package_name
        == c0.component_name_to_component_map@[c].1.package_name
    &&& c1.component_name_to_component_map@[c].1.pin0_abs_pos
        == c0.component_name_to_component_map@[c].1.pin0_abs_pos
    &&& forall|p: usize|
        #[trigger] c1.component_name_to_component_map@[c].1.spec_is_dont_care(p)
            <==> c0.component_name_to_component_map@[c].1.spec_is_dont_care(p) || exists|k: int|
            0 <= k < m && #[trigger] pins[k] == p + 1
}

proof fn lemma_taken_pins(pins: Seq<usize>, max: int, from: int, i: int)
    requires
        0 <= from <= i <= pins.len(),
        forall|j: int| from <= j < i ==> 1 <= #[trigger] pins[j] <= max,
        i < pins.len() ==> !(1 <= pins[i] <= max),
    ensures
        taken_pins(pins, max, from) == i,
    decreases i - from,
{
    if from < i {
        lemma_taken_pins(pins, max, from + 1, i);
    }
}

/// Declaring one more pin keeps the record of the pins declared.
proof fn lemma_pin_marked(
    c0: crate::circuit::Circuit,
    before: crate::circuit::Circuit,
    after: crate::circuit::Circuit,
    name: Seq<char>,
    pins: Seq<usize>,
    i: int,
)
    requires
        0 <= i < pins.len(),
        pins[i] >= 1,
        pins_marked(c0, before, name, pins, i),
        0 <= c0.component_index(name) < before.component_name_to_component_map@.len(),
        after.component_name_to_component_map@.len() == before.component_name_to_component_map@.len(),
        forall|k: int|
            0 <= k < before.component_name_to_component_map@.len() && k != c0.component_index(name)
                ==> #[trigger] after.component_name_to_component_map@[k]
                == before.component_name_to_component_map@[k],
        after.component_name_to_component_map@[c0.component_index(name)].0
            == before.component_name_to_component_map@[c0.component_index(name)].0,
        after.component_name_to_component_map@[c0.component_index(name)].1.package_name
            == before.component_name_to_component_map@[c0.component_index(name)].1.package_name,
        after.component_name_to_component_map@[c0.component_index(name)].1.pin0_abs_pos
            == before.component_name_to_component_map@[c0.component_index(name)].1.pin0_abs_pos,
        ({
            let old_marks = before.component_name_to_component_map@[c0.component_index(
                name,
            )].1.dont_care_pin_idx_set@;
            let new_marks = after.component_name_to_component_map@[c0.component_index(
                name,
            )].1.dont_care_pin_idx_set@;
            let p = (pins[i] - 1) as usize;
            if old_marks.contains(p) {
                new_marks == old_marks
            } else {
                new_marks == old_marks.push(p)
            }
        }),
    ensures
        pins_marked(c0, after, name, pins, i + 1),
{
    reveal(pins_marked);
    let c = c0.component_index(name);
    let old_marks = before.component_name_to_component_map@[c].1.dont_care_pin_idx_set@;
    let new_marks = after.component_name_to_component_map@[c].1.dont_care_pin_idx_set@;
    let q = (pins[i] - 1) as usize;
    assert forall|p: usize|
        #[trigger] after.component_name_to_component_map@[c].1.spec_is_dont_care(p)
            <==> c0.component_name_to_component_map@[c].1.spec_is_dont_care(p) || exists|k: int|
            0 <= k < i + 1 && #[trigger] pins[k] == p + 1 by {
        let was = before.component_name_to_component_map@[c].1.spec_is_dont_care(p);
        assert(was <==> c0.component_name_to_component_map@[c].1.spec_is_dont_care(p) || exists|k: int|
            0 <= k < i && #[trigger] pins[k] == p + 1);
        if new_marks.contains(p) {
            let j = choose|j: int| 0 <= j < new_marks.len() && new_marks[j] == p;
            if j < old_marks.len() {
                assert(old_marks[j] == p);
            } else {
                assert(p == q);
                assert(pins[i] == p + 1);
            }
        }
        if old_marks.contains(p) {
            let j = choose|j: int| 0 <= j < old_marks.len() && old_marks[j] == p;
            assert(new_marks[j] == p);
        }
        if exists|k: int| 0 <= k < i + 1 && #[trigger] pins[k] == p + 1 {
            let k = choose|k: int| 0 <= k < i + 1 && #[trigger] pins[k] == p + 1;
            if k == i {
                assert(p == q);
                if !old_marks.contains(q) {
                    assert(new_marks[old_marks.len() as int] == q);
                }
            }
        }
    }
}

/// What stands against ending a connection at `point`, if anything does: the component
/// is not known, or its package is not, or it has no such pin, or the pin is not in use.
pub open spec fn point_verdict(circuit: crate::circuit::Circuit, point: ConnectionPoint) -> Option<ErrorKind> {
    if !circuit.has_component(point.component_name@) {
        Some(ErrorKind::UnknownComponent)
    } else {
        let component = circuit.component_name_to_component_map@[circuit.component_index(
            point.component_name@,
        )].1;
        if !circuit.has_package(component.package_name@) {
            Some(ErrorKind::UnknownPackage)
        } else if point.pin_idx >= circuit.package_to_pos_map@[circuit.package_index(
            component.package_name@,
        )].1@.len() {
            Some(ErrorKind::InvalidPin)
        } else if component.spec_is_dont_care(point.pin_idx) {
            Some(ErrorKind::DontCarePin)
        } else {
            None
        }
    }
}

/// The kind of the cause of a refusal, if it is one.
pub open spec fn refusal(r: Result<(), ParseError>) -> Option<ErrorKind> {
    match r {
        Ok(_) => None,
        Err(e) => Some(e.spec_kind()),
    }
}

/// Reads the lines of a circuit into a layout.
pub struct CircuitFileParser {
    /// What is added to the position of every component placed from now on.
    pub offset: OffsetVia,
}

impl CircuitFileParser {
    pub fn new() -> (p: Self)
        ensures
            p.offset == (OffsetVia { x: 0, y: 0 }),
    {
        Self { offset: OffsetVia::new(0, 0) }
    }

    /// Places the component `component_name` of package `package_name` with its first pin
    /// at (`x`, `y`) moved by the current offset. The package must be known and every pin
    /// must lie on the board.
    pub fn place_component(
        &self,
        layout: &mut Layout,
        component_name: String,
        package_name: String,
        x: usize,
        y: usize,
    ) -> (r: Result<(), ParseError>)
        ensures
            r.is_err() ==> *final(layout) == *old(layout),
            refusal(r) == place_verdict(
                old(layout).circuit,
                old(layout).board,
                self.offset,
                package_name@,
                x,
                y,
            ),
            r.is_ok() ==> {
                &&& *final(layout) == (Layout { circuit: final(layout).circuit, ..*old(layout) })
                &&& final(layout).circuit.package_to_pos_map == old(layout).circuit.package_to_pos_map
                &&& final(layout).circuit.connection_vec == old(layout).circuit.connection_vec
                &&& final(layout).circuit.parser_error_vec == old(layout).circuit.parser_error_vec
                &&& final(layout).circuit.has_component(component_name@)
                &&& placed(
                    final(layout).circuit.component_name_to_component_map@[final(layout).circuit.component_index(
                        component_name@,
                    )].1,
                    package_name@,
                    x + self.offset.x,
                    y + self.offset.y,
                )
                &&& component_set(
                    old(layout).circuit,
                    final(layout).circuit,
                    component_name@,
                    final(layout).circuit.component_name_to_component_map@[final(layout).circuit.component_index(
                        component_name@,
                    )].1,
                )
            },
    {
        if layout.circuit.find_package(&package_name).is_none() {
            return Err(ParseError::UnknownPackage { package_name });
        }
        let px = match coordinate_from_offset(x, self.offset.x) {
            None => {
                return Err(ParseError::PinOutsideBoard { component_name, pin: 1 });
            },
            Some(px) => px,
        };
        let py = match coordinate_from_offset(y, self.offset.y) {
            None => {
                return Err(ParseError::PinOutsideBoard { component_name, pin: 1 });
            },
            Some(py) => py,
        };
        let k = layout.circuit.first_package(&package_name);
        match Self::first_pin_outside(layout, k, px, py) {
            Some(i) => {
                return Err(ParseError::PinOutsideBoard { component_name, pin: i + 1 });
            },
            None => {},
        }
        let component = Component::new(package_name, Via::new(px, py));
        layout.circuit.set_component(component_name, component);
        Ok(())
    }

    /// The first pin of the package at place `k` that lies outside the board when the
    /// first pin sits at (`px`, `py`), if there is one.
    fn first_pin_outside(layout: &Layout, k: usize, px: usize, py: usize) -> (r: Option<usize>)
        requires
            k < layout.circuit.package_to_pos_map@.len(),
        ensures
            r.is_none() <==> pins_inside(
                layout.board,
                px as int,
                py as int,
                layout.circuit.package_to_pos_map@[k as int].1@,
                layout.circuit.package_to_pos_map@[k as int].1@.len() as int,
            ),
            r.is_some() ==> r.unwrap() < layout.circuit.package_to_pos_map@[k as int].1@.len(),
            r.is_some() ==> r.unwrap() < usize::MAX,
    {
        let n = layout.circuit.package_to_pos_map[k].1.len();
        let mut i: usize = 0;
        while i < n
            invariant
                i <= n,
                k < layout.circuit.package_to_pos_map@.len(),
                n == layout.circuit.package_to_pos_map@[k as int].1@.len(),
                pins_inside(
                    layout.board,
                    px as int,
                    py as int,
                    layout.circuit.package_to_pos_map@[k as int].1@,
                    i as int,
                ),
            decreases n - i,
        {
            let o = layout.circuit.package_to_pos_map[k].1[i];
            let inside = match coordinate_from_offset(px, o.x) {
                None => false,
                Some(ax) => match coordinate_from_offset(py, o.y) {
                    None => false,
                    Some(ay) => ax < layout.board.w && ay < layout.board.h,
                },
            };
            if !inside {
                assert(!pin_inside(
                    layout.board,
                    px as int,
                    py as int,
                    layout.circuit.package_to_pos_map@[k as int].1@[i as int],
                ));
                return Some(i);
            }
            i += 1;
        }
        None
    }

    /// Declares the pins `pins` of the component `component_name`, counted from 1, to be
    /// not in use. The pins are taken one after the other; the first that the component
    /// does not have ends the call, and those before it stay declared.
    pub fn mark_dont_care(layout: &mut Layout, component_name: String, pins: &Vec<usize>) -> (r: Result<
        (),
        ParseError,
    >)
        ensures
            refusal(r) == dont_care_verdict(old(layout).circuit, component_name@, pins@),
            *final(layout) == (Layout { circuit: final(layout).circuit, ..*old(layout) }),
            final(layout).circuit.package_to_pos_map == old(layout).circuit.package_to_pos_map,
            final(layout).circuit.connection_vec == old(layout).circuit.connection_vec,
            final(layout).circuit.parser_error_vec == old(layout).circuit.parser_error_vec,
            dont_care_verdict(old(layout).circuit, component_name@, pins@) == Some(ErrorKind::UnknownComponent)
                || dont_care_verdict(old(layout).circuit, component_name@, pins@) == Some(
                ErrorKind::UnknownPackage,
            ) ==> *final(layout) == *old(layout),
            old(layout).circuit.has_component(component_name@) ==> pins_marked(
                old(layout).circuit,
                final(layout).circuit,
                component_name@,
                pins@,
                taken_pins(pins@, pin_count(old(layout).circuit, component_name@) as int, 0),
            ),
    {
        if layout.circuit.find_component(&component_name).is_none() {
            return Err(ParseError::UnknownComponent { component_name });
        }
        let c = layout.circuit.first_component(&component_name);
        if layout.circuit.find_package(&layout.circuit.component_name_to_component_map[c].1.package_name).is_none() {
            let package_name = layout.circuit.component_name_to_component_map[c].1.package_name.clone();
            proof {
                assert(pins_marked(layout.circuit, layout.circuit, component_name@, pins@, 0)) by {
                    reveal(pins_marked);
                }
                assert(taken_pins(pins@, 0, 0) == 0);
            }
            return Err(ParseError::UnknownPackage { package_name });
        }
        let k = layout.circuit.first_package(&layout.circuit.component_name_to_component_map[c].1.package_name);
        let max = layout.circuit.package_to_pos_map[k].1.len();
        let n = pins.len();
        let mut i: usize = 0;
        proof {
            assert(pins_marked(layout.circuit, layout.circuit, component_name@, pins@, 0)) by {
                reveal(pins_marked);
            }
        }
        while i < n
            invariant
                i <= n,
                n == pins@.len(),
                c == old(layout).circuit.component_index(component_name@),
                c < layout.circuit.component_name_to_component_map@.len(),
                old(layout).circuit.has_component(component_name@),
                max == pin_count(old(layout).circuit, component_name@),
                old(layout).circuit.has_package(
                    old(layout).circuit.component_name_to_component_map@[c as int].1.package_name@,
                ),
                *layout == (Layout { circuit: layout.circuit, ..*old(layout) }),
                layout.circuit.package_to_pos_map == old(layout).circuit.package_to_pos_map,
                layout.circuit.connection_vec == old(layout).circuit.connection_vec,
                layout.circuit.parser_error_vec == old(layout).circuit.parser_error_vec,
                forall|j: int| 0 <= j < i ==> 1 <= #[trigger] pins@[j] <= max,
                pins_marked(old(layout).circuit, layout.circuit, component_name@, pins@, i as int),
            decreases n - i,
        {
            let pin_idx = pins[i];
            if pin_idx < 1 || pin_idx > max {
                proof {
                    lemma_taken_pins(pins@, max as int, 0, i as int);
                }
                return Err(ParseError::InvalidDontCarePin { component_name, pin: pin_idx, max });
            }
            let ghost before = layout.circuit;
            if !layout.circuit.component_name_to_component_map[c].1.is_dont_care(pin_idx - 1) {
                layout.circuit.component_name_to_component_map[c].1.dont_care_pin_idx_set.push(pin_idx - 1);
            }
            proof {
                lemma_pin_marked(old(layout).circuit, before, layout.circuit, component_name@, pins@, i as int);
            }
            i += 1;
        }
        proof {
            lemma_taken_pins(pins@, max as int, 0, n as int);
        }
        Ok(())
    }

    /// Whether `connection_point` names a pin that a connection may end at: its
    /// component exists, has the pin, and the pin is in use.
    pub fn check_connection_point(layout: &Layout, connection_point: &ConnectionPoint) -> (r: Result<(), ParseError>)
        ensures
            refusal(r) == point_verdict(layout.circuit, *connection_point),
    {
        let c = match layout.circuit.find_component(&connection_point.component_name) {
            None => {
                return Err(
                    ParseError::UnknownComponent { component_name: connection_point.component_name.clone() },
                );
            },
            Some(c) => layout.circuit.first_component(&connection_point.component_name),
        };
        let component = &layout.circuit.component_name_to_component_map[c].1;
        let max = match layout.circuit.find_package(&component.package_name) {
            None => {
                return Err(ParseError::UnknownPackage { package_name: component.package_name.clone() });
            },
            Some(k) => {
                let k = layout.circuit.first_package(&component.package_name);
                layout.circuit.package_to_pos_map[k].1.len()
            },
        };
        if connection_point.pin_idx >= max {
            let pin = if connection_point.pin_idx < usize::MAX {
                connection_point.pin_idx + 1
            } else {
                0
            };
            return Err(
                ParseError::InvalidPin { component_name: connection_point.component_name.clone(), pin, max },
            );
        }
        if component.is_dont_care(connection_point.pin_idx) {
            return Err(
                ParseError::DontCarePin {
                    component_name: connection_point.component_name.clone(),
                    pin: connection_point.pin_idx + 1,
                },
            );
        }
        Ok(())
    }

    /// Adds the connection from `start` to `end`, if both may end a connection. A
    /// connection from a pin to itself is dropped without a word.
    pub fn add_connection(layout: &mut Layout, start: ConnectionPoint, end: ConnectionPoint) -> (r: Result<
        (),
        ParseError,
    >)
        ensures
            *final(layout) == (Layout { circuit: final(layout).circuit, ..*old(layout) }),
            final(layout).circuit.package_to_pos_map == old(layout).circuit.package_to_pos_map,
            final(layout).circuit.component_name_to_component_map == old(layout).circuit.component_name_to_component_map,
            final(layout).circuit.parser_error_vec == old(layout).circuit.parser_error_vec,
            r.is_err() ==> *final(layout) == *old(layout),
            r.is_ok() ==> final(layout).circuit.connection_vec@ == (if start.component_name@
                != end.component_name@ || start.pin_idx != end.pin_idx {
                old(layout).circuit.connection_vec@.push(Connection { start, end })
            } else {
                old(layout).circuit.connection_vec@
            }),
            refusal(r) == (if point_verdict(old(layout).circuit, start).is_some() {
                point_verdict(old(layout).circuit, start)
            } else {
                point_verdict(old(layout).circuit, end)
            }),
    {
        match Self::check_connection_point(layout, &start) {
            Err(e) => {
                return Err(e);
            },
            Ok(()) => {},
        }
        match Self::check_connection_point(layout, &end) {
            Err(e) => {
                return Err(e);
            },
            Ok(()) => {},
        }
        if start.component_name != end.component_name || start.pin_idx != end.pin_idx {
            layout.circuit.connection_vec.push(Connection::new(start, end));
        }
        Ok(())
    }
}

/// What stands against placing a component of the package `package_name` with its first
/// pin at (`x`, `y`) moved by `offset`, if anything does: the package is not known, or a
/// pin would lie outside `board`.
pub open spec fn place_verdict(
    circuit: crate::circuit::Circuit,
    board: crate::board::Board,
    offset: OffsetVia,
    package_name: Seq<char>,
    x: usize,
    y: usize,
) -> Option<ErrorKind> {
    if !circuit.has_package(package_name) {
        Some(ErrorKind::UnknownPackage)
    } else {
        let offsets = circuit.package_to_pos_map@[circuit.package_index(package_name)].1@;
        if 0 <= x + offset.x <= usize::MAX && 0 <= y + offset.y <= usize::MAX && pins_inside(
            board,
            x + offset.x,
            y + offset.y,
            offsets,
            offsets.len() as int,
        ) {
            None
        } else {
            Some(ErrorKind::PinOutsideBoard)
        }
    }
}

/// How taking a line that the match `caps` of [`COMPONENT_FULL_RX`] describes ends: a
/// number that does not fit is refused, then an unknown package, then a pin outside the
/// board; else the component is placed.
pub open spec fn component_outcome(l0: Layout, reader0: CircuitFileParser, caps: Seq<Option<Seq<char>>>) -> Result<
    bool,
    ErrorKind,
> {
    let x = usize_of(group(caps, 3));
    let y = usize_of(group(caps, 4));
    if x.is_none() || y.is_none() {
        Err(ErrorKind::NumberTooLarge)
    } else {
        match place_verdict(l0.circuit, l0.board, reader0.offset, group(caps, 2), x.unwrap(), y.unwrap()) {
            Some(kind) => Err(kind),
            None => Ok(true),
        }
    }
}

/// Whether `component` is of the package `package_name`, has its first pin at (`px`,
/// `py`) and all its pins in use.
pub open spec fn placed(component: Component, package_name: Seq<char>, px: int, py: int) -> bool {
    &&& component.package_name@ == package_name
    &&& component.pin0_abs_pos.x == px
    &&& component.pin0_abs_pos.y == py
    &&& component.dont_care_pin_idx_set@.len() == 0
}

/// The text of group `i` of a match; no text where the group is missing or took no part.
pub open spec fn group(caps: Seq<Option<Seq<char>>>, i: int) -> Seq<char> {
    if 0 <= i < caps.len() && caps[i].is_some() {
        caps[i].unwrap()
    } else {
        Seq::empty()
    }
}

/// The number that `s` writes, if it is a run of digits that fits the machine word.
pub open spec fn usize_of(s: Seq<char>) -> Option<usize> {
    if all_digits(s) && decimal(s) <= usize::MAX {
        Some(decimal(s) as usize)
    } else {
        None
    }
}

/// How many of `pieces`, from place `from` on, are read before one is met that writes no
/// number that fits the machine word: the place of that one, or the length of `pieces`.
pub open spec fn numbers_read(pieces: Seq<Seq<char>>, from: int) -> int
    decreases pieces.len() - from,
{
    if from < 0 || from >= pieces.len() {
        pieces.len() as int
    } else if usize_of(pieces[from]).is_none() {
        from
    } else {
        numbers_read(pieces, from + 1)
    }
}

/// The numbers that the first of `pieces` write, up to the first piece that writes none.
pub open spec fn leading_numbers(pieces: Seq<Seq<char>>) -> Seq<usize> {
    Seq::new(numbers_read(pieces, 0) as nat, |k: int| usize_of(pieces[k]).unwrap())
}

proof fn lemma_numbers_read(pieces: Seq<Seq<char>>, from: int, i: int)
    requires
        0 <= from <= i <= pieces.len(),
        forall|k: int| from <= k < i ==> usize_of(#[trigger] pieces[k]).is_some(),
        i < pieces.len() ==> usize_of(pieces[i]).is_none(),
    ensures
        numbers_read(pieces, from) == i,
    decreases i - from,
{
    if from < i {
        lemma_numbers_read(pieces, from + 1, i);
    }
}

/// The number that `s` writes, with or without a sign, if it fits the machine word.
pub open spec fn isize_of(s: Seq<char>) -> Option<isize> {
    if signed_decimal(s).is_some() && isize::MIN < signed_decimal(s).unwrap() <= isize::MAX {
        Some(signed_decimal(s).unwrap() as isize)
    } else {
        None
    }
}

/// How taking a line ended: taken, not of this form, or refused for a cause of a kind.
pub open spec fn outcome(r: Result<bool, ParseError>) -> Result<bool, ErrorKind> {
    match r {
        Ok(b) => Ok(b),
        Err(e) => Err(e.spec_kind()),
    }
}

/// The text of group `i`.
fn group_text(caps: &Vec<Option<String>>, i: usize) -> (r: String)
    ensures
        r@ == group(group_texts(caps@), i as int),
{
    proof {
        reveal_strlit("");
    }
    if i < caps.len() {
        match &caps[i] {
            Some(s) => s.clone(),
            None => String::from_str(""),
        }
    } else {
        String::from_str("")
    }
}

/// The pin offset that a match of [`PKG_POS_RX`] writes.
pub fn position_from(caps: &Vec<Option<String>>) -> (r: Option<OffsetVia>)
    ensures
        r == position_of(group_texts(caps@)),
{
    let x = parse_isize(group_text(caps, 1).as_str());
    let y = parse_isize(group_text(caps, 2).as_str());
    match x {
        Some(x) => match y {
            Some(y) => Some(OffsetVia::new(x, y)),
            None => None,
        },
        None => None,
    }
}

/// The pin offset that a match of [`PKG_POS_RX`] writes, if its numbers fit the machine
/// word.
pub open spec fn position_of(caps: Seq<Option<Seq<char>>>) -> Option<OffsetVia> {
    if isize_of(group(caps, 1)).is_some() && isize_of(group(caps, 2)).is_some() {
        Some(OffsetVia { x: isize_of(group(caps, 1)).unwrap(), y: isize_of(group(caps, 2)).unwrap() })
    } else {
        None
    }
}

impl CircuitFileParser {
    /// Whether the line is empty or a comment.
    pub fn parse_comment_or_empty(&self, line: &str) -> (r: Result<bool, ParseError>)
        ensures
            r == Ok::<bool, ParseError>(regex_captures(COMMENT_OR_EMPTY_FULL_RX@, line@).is_some()),
    {
        Ok(captures(COMMENT_OR_EMPTY_FULL_RX, line).is_some())
    }

    /// Takes a line of the form `board W,H` and sets the size of the board.
    pub fn parse_board(&mut self, layout: &mut Layout, line: &str) -> (r: Result<bool, ParseError>)
        ensures
            board_line(*old(layout), *old(self), *final(layout), *final(self), line@, outcome(r)),
    {
        match captures(BOARD_SIZE_RX, line) {
            None => Ok(false),
            Some(caps) => {
                let w = parse_usize(group_text(&caps, 1).as_str());
                let h = parse_usize(group_text(&caps, 2).as_str());
                match w {
                    Some(w) => match h {
                        Some(h) => {
                            layout.board.w = w;
                            layout.board.h = h;
                            Ok(true)
                        },
                        None => Err(ParseError::NumberTooLarge),
                    },
                    None => Err(ParseError::NumberTooLarge),
                }
            },
        }
    }

    /// Takes a line of the form `offset X,Y` and sets what is added to the position of
    /// every component placed from now on.
    pub fn parse_offset(&mut self, line: &str) -> (r: Result<bool, ParseError>)
        ensures
            offset_line(*old(self), *final(self), line@, outcome(r)),
    {
        match captures(OFFSET_RX, line) {
            None => Ok(false),
            Some(caps) => match position_from(&caps) {
                Some(p) => {
                    self.offset = p;
                    Ok(true)
                },
                None => Err(ParseError::NumberTooLarge),
            },
        }
    }

    /// Takes a line of the form `<package> x,y x,y ...` and defines the package. A line
    /// in which a piece after the name holds no pair of numbers is not of this form.
    pub fn parse_package(&mut self, layout: &mut Layout, line: &str) -> (r: Result<bool, ParseError>)
        ensures
            package_line(*old(layout), *old(self), *final(layout), *final(self), line@, outcome(r)),
    {
        let caps = match captures(PKG_NAME_RX, line) {
            None => {
                return Ok(false);
            },
            Some(caps) => caps,
        };
        let pkg_name = group_text(&caps, 1);
        let pkg_pos = group_text(&caps, 2);
        let pieces = split(WHITESPACE_SEP_RX, pkg_pos.as_str());
        let ghost texts = regex_split(WHITESPACE_SEP_RX@, pkg_pos@);
        let mut v: Vec<OffsetVia> = Vec::new();
        let n = pieces.len();
        let mut i: usize = 0;
        while i < n
            invariant
                i <= n,
                n == pieces@.len(),
                texts == crate::circuit_parser::texts(pieces@),
                regex_captures(PKG_NAME_RX@, line@).is_some(),
                pkg_name@ == group(regex_captures(PKG_NAME_RX@, line@).unwrap(), 1),
                texts == regex_split(WHITESPACE_SEP_RX@, group(regex_captures(PKG_NAME_RX@, line@).unwrap(), 2)),
                *layout == *old(layout),
                *self == *old(self),
                v@.len() == i,
                package_outcome(texts, i as int) == Ok::<bool, ErrorKind>(true),
                forall|k: int|
                    0 <= k < i ==> Some(#[trigger] v@[k]) == position_of(
                        regex_captures(PKG_POS_RX@, texts[k]).unwrap(),
                    ),
            decreases n - i,
        {
            proof {
                assert(texts[i as int] == pieces@[i as int]@);
            }
            match captures(PKG_POS_RX, pieces[i].as_str()) {
                None => {
                    proof {
                        lemma_package_outcome_stays(texts, i as int + 1, n as int);
                    }
                    return Ok(false);
                },
                Some(pc) => match position_from(&pc) {
                    None => {
                        proof {
                            lemma_package_outcome_stays(texts, i as int + 1, n as int);
                        }
                        return Err(ParseError::NumberTooLarge);
                    },
                    Some(p) => {
                        v.push(p);
                    },
                },
            }
            i += 1;
        }
        layout.circuit.set_package(pkg_name, v);
        Ok(true)
    }

    /// Takes a line of the form `<component> <package> X,Y` and places the component.
    pub fn parse_component(&mut self, layout: &mut Layout, line: &str) -> (r: Result<bool, ParseError>)
        ensures
            component_line(*old(layout), *old(self), *final(layout), *final(self), line@, outcome(r)),
    {
        let caps = match captures(COMPONENT_FULL_RX, line) {
            None => {
                return Ok(false);
            },
            Some(caps) => caps,
        };
        let component_name = group_text(&caps, 1);
        let package_name = group_text(&caps, 2);
        let x = parse_usize(group_text(&caps, 3).as_str());
        let y = parse_usize(group_text(&caps, 4).as_str());
        match x {
            Some(x) => match y {
                Some(y) => match self.place_component(layout, component_name, package_name, x, y) {
                    Ok(()) => Ok(true),
                    Err(e) => Err(e),
                },
                None => Err(ParseError::NumberTooLarge),
            },
            None => Err(ParseError::NumberTooLarge),
        }
    }

    /// Takes a line of the form `<component> i j k ...` and declares the pins to be not
    /// in use. The component is looked up first; then the numbers are taken one after
    /// the other, and the first that is no pin of the component, or no number that fits
    /// the machine word, ends the call; the pins before it stay declared.
    pub fn parse_dont_care(&mut self, layout: &mut Layout, line: &str) -> (r: Result<bool, ParseError>)
        ensures
            dont_care_line(*old(layout), *old(self), *final(layout), *final(self), line@, outcome(r)),
    {
        let caps = match captures(DONT_CARE_FULL_RX, line) {
            None => {
                return Ok(false);
            },
            Some(caps) => caps,
        };
        let component_name = group_text(&caps, 1);
        let pin_idx_list = group_text(&caps, 2);
        if layout.circuit.find_component(&component_name).is_none() {
            return Err(ParseError::UnknownComponent { component_name });
        }
        let pieces = split(WHITESPACE_SEP_RX, pin_idx_list.as_str());
        let ghost texts = regex_split(WHITESPACE_SEP_RX@, pin_idx_list@);
        // The numbers are read up to the first piece that writes none.
        let mut pins: Vec<usize> = Vec::new();
        let n = pieces.len();
        let mut all_numbers = true;
        let mut i: usize = 0;
        while i < n && all_numbers
            invariant
                i <= n,
                n == pieces@.len(),
                texts == crate::circuit_parser::texts(pieces@),
                pins@.len() == i,
                forall|k: int| 0 <= k < i ==> Some(#[trigger] pins@[k]) == usize_of(texts[k]),
                !all_numbers ==> i < n && usize_of(texts[i as int]).is_none(),
            decreases n - i + (if all_numbers { 1int } else { 0int }),
        {
            proof {
                assert(texts[i as int] == pieces@[i as int]@);
            }
            match parse_usize(pieces[i].as_str()) {
                None => {
                    all_numbers = false;
                },
                Some(pin) => {
                    pins.push(pin);
                    i += 1;
                },
            }
        }
        proof {
            assert forall|k: int| 0 <= k < i implies usize_of(#[trigger] texts[k]).is_some() by {
                assert(Some(pins@[k]) == usize_of(texts[k]));
            }
            lemma_numbers_read(texts, 0, i as int);
            assert(pins@ =~= leading_numbers(texts));
        }
        match Self::mark_dont_care(layout, component_name, &pins) {
            Ok(()) => if all_numbers {
                Ok(true)
            } else {
                Err(ParseError::NumberTooLarge)
            },
            Err(e) => Err(e),
        }
    }

    /// Takes a line of the form `<component>.i <component>.j` and adds the connection.
    pub fn parse_connection(&mut self, layout: &mut Layout, line: &str) -> (r: Result<bool, ParseError>)
        ensures
            connection_line(*old(layout), *old(self), *final(layout), *final(self), line@, outcome(r)),
    {
        let caps = match captures(CONNECTION_FULL_RX, line) {
            None => {
                return Ok(false);
            },
            Some(caps) => caps,
        };
        let a = parse_usize(group_text(&caps, 2).as_str());
        let b = parse_usize(group_text(&caps, 4).as_str());
        match a {
            Some(a) => match b {
                Some(b) => {
                    let start = ConnectionPoint::new(group_text(&caps, 1), a.wrapping_sub(1));
                    let end = ConnectionPoint::new(group_text(&caps, 3), b.wrapping_sub(1));
                    proof {
                        assert(connects_pins(start, end, regex_captures(CONNECTION_FULL_RX@, line@).unwrap()));
                    }
                    match Self::add_connection(layout, start, end) {
                        Ok(()) => Ok(true),
                        Err(e) => Err(e),
                    }
                },
                None => Err(ParseError::NumberTooLarge),
            },
            None => Err(ParseError::NumberTooLarge),
        }
    }

    /// Takes one line, with its white space brought into order already. The forms are
    /// tried in a fixed order; the first that fits decides.
    pub fn parse_line(&mut self, layout: &mut Layout, line: &str) -> (r: Result<(), ParseError>)
        ensures
            final(layout).circuit.parser_error_vec == old(layout).circuit.parser_error_vec,
            line_taken(*old(layout), *old(self), *final(layout), *final(self), line@, lifted(r)),
    {
        // Connections are the most frequent lines, so they are tried first.
        match self.parse_connection(layout, line) {
            Err(e) => {
                return Err(e);
            },
            Ok(true) => {
                return Ok(());
            },
            Ok(false) => {},
        }
        match self.parse_comment_or_empty(line) {
            Err(e) => {
                return Err(e);
            },
            Ok(true) => {
                return Ok(());
            },
            Ok(false) => {},
        }
        match self.parse_board(layout, line) {
            Err(e) => {
                return Err(e);
            },
            Ok(true) => {
                return Ok(());
            },
            Ok(false) => {},
        }
        match self.parse_offset(line) {
            Err(e) => {
                return Err(e);
            },
            Ok(true) => {
                return Ok(());
            },
            Ok(false) => {},
        }
        match self.parse_package(layout, line) {
            Err(e) => {
                return Err(e);
            },
            Ok(true) => {
                return Ok(());
            },
            Ok(false) => {},
        }
        match self.parse_component(layout, line) {
            Err(e) => {
                return Err(e);
            },
            Ok(true) => {
                return Ok(());
            },
            Ok(false) => {},
        }
        match self.parse_dont_care(layout, line) {
            Err(e) => {
                return Err(e);
            },
            Ok(true) => {
                return Ok(());
            },
            Ok(false) => {},
        }
        Err(ParseError::Unrecognized)
    }

    /// The line with every run of white space made one blank and none left at its ends.
    pub fn normalize(line: &str) -> (r: String)
        ensures
            r@ == joined(regex_split(WHITESPACE_SEP_RX@, line@), regex_split(WHITESPACE_SEP_RX@, line@).len() as int),
    {
        let pieces = split(WHITESPACE_SEP_RX, line);
        let ghost texts = regex_split(WHITESPACE_SEP_RX@, line@);
        let mut r = String::from_str("");
        proof {
            reveal_strlit("");
        }
        let n = pieces.len();
        let mut i: usize = 0;
        while i < n
            invariant
                i <= n,
                n == pieces@.len(),
                texts == crate::circuit_parser::texts(pieces@),
                r@ == joined(texts, i as int),
            decreases n - i,
        {
            proof {
                assert(texts[i as int] == pieces@[i as int]@);
            }
            if pieces[i].as_str().unicode_len() > 0 {
                if r.as_str().unicode_len() > 0 {
                    r.append(" ");
                    proof {
                        reveal_strlit(" ");
                        assert(" "@ =~= seq![' ']);
                    }
                }
                r.append(pieces[i].as_str());
            }
            i += 1;
        }
        r
    }

    /// Reads the lines of a circuit, one after the other, into the layout. A line that
    /// cannot be taken adds an error, with the number of the line, the line and the
    /// cause, to the errors of the circuit; reading goes on with the next line.
    pub fn parse_lines(&mut self, layout: &mut Layout, lines: &Vec<String>)
        ensures
            lines_read(*old(layout), *old(self), *final(layout), *final(self), texts(lines@), lines@.len() as int),
    {
        let n = lines.len();
        let mut line_idx: usize = 0;
        while line_idx < n
            invariant
                line_idx <= n,
                n == lines@.len(),
                lines_read(*old(layout), *old(self), *layout, *self, texts(lines@), line_idx as int),
            decreases n - line_idx,
        {
            let ghost l0 = *layout;
            let ghost reader0 = *self;
            let line = Self::normalize(lines[line_idx].as_str());
            let r = self.parse_line(layout, line.as_str());
            let ghost lx = *layout;
            let ghost r0 = r;
            match r {
                Ok(()) => {},
                Err(error) => {
                    let text = String::from_str("Error on line ").concat(number_text(line_idx + 1).as_str()).concat(
                        ": ",
                    ).concat(line.as_str()).concat(": ").concat(error.message().as_str());
                    layout.circuit.parser_error_vec.push(text);
                    proof {
                        assert(error_text(text@, line_idx + 1, line@, error));
                        assert(layout.circuit.parser_error_vec@.last() == text);
                        assert(layout.circuit.parser_error_vec@.drop_last() =~= lx.circuit.parser_error_vec@);
                        assert(line_read(
                            l0,
                            reader0,
                            lx,
                            *layout,
                            *self,
                            lines@[line_idx as int]@,
                            line_idx + 1,
                            Err::<(), ParseError>(error),
                        ));
                    }
                },
            }
            proof {
                assert(texts(lines@)[line_idx as int] == lines@[line_idx as int]@);
                assert(line_read(l0, reader0, lx, *layout, *self, texts(lines@)[line_idx as int], line_idx + 1, r0));
                assert(lines_read(*old(layout), *old(self), l0, reader0, texts(lines@), line_idx as int));
                assert(line_read(l0, reader0, lx, *layout, *self, texts(lines@)[(line_idx + 1) - 1], line_idx + 1, r0));
                assert(lines_read(*old(layout), *old(self), *layout, *self, texts(lines@), line_idx + 1));
            }
            line_idx += 1;
        }
    }
}

/// Whether `text` reports that line number `number`, which reads `line`, was refused for
/// the cause `error`.
pub open spec fn error_text(text: Seq<char>, number: int, line: Seq<char>, error: ParseError) -> bool {
    text == "Error on line "@ + digits_of(number as nat) + ": "@ + line + ": "@ + error.spec_message()
}

/// What reading the line `raw`, the line number `number`, does: its white space is
/// brought into order, it is taken, see [`line_taken`], which leads from the layout `l0`
/// to `lx`, and where it is refused for the cause `r`, the report is added to the errors
/// of the circuit, which leads to `l1`.
pub open spec fn line_read(
    l0: Layout,
    reader0: CircuitFileParser,
    lx: Layout,
    l1: Layout,
    reader1: CircuitFileParser,
    raw: Seq<char>,
    number: int,
    r: Result<(), ParseError>,
) -> bool {
    let pieces = regex_split(WHITESPACE_SEP_RX@, raw);
    let line = joined(pieces, pieces.len() as int);
    &&& line_taken(l0, reader0, lx, reader1, line, lifted(r))
    &&& match r {
        Ok(_) => l1 == lx,
        Err(error) => {
            &&& l1 == (Layout { circuit: l1.circuit, ..lx })
            &&& l1.circuit.package_to_pos_map == lx.circuit.package_to_pos_map
            &&& l1.circuit.component_name_to_component_map == lx.circuit.component_name_to_component_map
            &&& l1.circuit.connection_vec == lx.circuit.connection_vec
            &&& l1.circuit.parser_error_vec@.len() == lx.circuit.parser_error_vec@.len() + 1
            &&& l1.circuit.parser_error_vec@.drop_last() == lx.circuit.parser_error_vec@
            &&& error_text(l1.circuit.parser_error_vec@.last()@, number, line, error)
        },
    }
}

/// What reading the first `k` of `lines` does, one after the other: see [`line_read`].
pub open spec fn lines_read(
    l0: Layout,
    reader0: CircuitFileParser,
    l1: Layout,
    reader1: CircuitFileParser,
    lines: Seq<Seq<char>>,
    k: int,
) -> bool
    decreases k,
{
    if k <= 0 {
        l1 == l0 && reader1 == reader0
    } else {
        exists|lm: Layout, pm: CircuitFileParser, lx: Layout, r: Result<(), ParseError>|
            lines_read(l0, reader0, lm, pm, lines, k - 1) && #[trigger] line_read(lm, pm, lx, l1, reader1, lines[k - 1], k, r)
    }
}

/// What taking `line` as a line of the form `board W,H` does: `l0` and `reader0` are the layout
/// and the reader before, `l1` and `reader1` those after, `out` says how it ended.
pub open spec fn board_line(
    l0: Layout,
    reader0: CircuitFileParser,
    l1: Layout,
    reader1: CircuitFileParser,
    line: Seq<char>,
    out: Result<bool, ErrorKind>,
) -> bool {
    &&& reader1 == reader0
    &&& l1.circuit.parser_error_vec == l0.circuit.parser_error_vec
    &&& out != Ok::<bool, ErrorKind>(true) ==> l1 == l0
    &&& regex_captures(BOARD_SIZE_RX@, line).is_none() <==> out == Ok::<bool, ErrorKind>(false)
    &&& regex_captures(BOARD_SIZE_RX@, line).is_some() ==> {
        let caps = regex_captures(BOARD_SIZE_RX@, line).unwrap();
        let w = usize_of(group(caps, 1));
        let h = usize_of(group(caps, 2));
        if w.is_some() && h.is_some() {
            out == Ok::<bool, ErrorKind>(true) && l1 == (Layout {
                board: crate::board::Board { w: w.unwrap(), h: h.unwrap() },
                ..l0
            })
        } else {
            out == Err::<bool, ErrorKind>(ErrorKind::NumberTooLarge)
        }
    }
}

/// What taking `line` as a line of the form `<package> x,y x,y ...` does: `l0` and `reader0` are the layout
/// and the reader before, `l1` and `reader1` those after, `out` says how it ended.
pub open spec fn package_line(
    l0: Layout,
    reader0: CircuitFileParser,
    l1: Layout,
    reader1: CircuitFileParser,
    line: Seq<char>,
    out: Result<bool, ErrorKind>,
) -> bool {
    &&& reader1 == reader0
    &&& l1.circuit.parser_error_vec == l0.circuit.parser_error_vec
    &&& out != Ok::<bool, ErrorKind>(true) ==> l1 == l0
    &&& regex_captures(PKG_NAME_RX@, line).is_none() ==> out == Ok::<bool, ErrorKind>(false)
    &&& regex_captures(PKG_NAME_RX@, line).is_some() ==> {
        let caps = regex_captures(PKG_NAME_RX@, line).unwrap();
        let pieces = regex_split(WHITESPACE_SEP_RX@, group(caps, 2));
        &&& out == package_outcome(pieces, pieces.len() as int)
        &&& out == Ok::<bool, ErrorKind>(true) ==> {
            &&& l1 == (Layout { circuit: l1.circuit, ..l0 })
            &&& l1.circuit.component_name_to_component_map == l0.circuit.component_name_to_component_map
            &&& l1.circuit.connection_vec == l0.circuit.connection_vec
            &&& l1.circuit.parser_error_vec == l0.circuit.parser_error_vec
            &&& l1.circuit.has_package(group(caps, 1))
            &&& written(
                l1.circuit.package_to_pos_map@[l1.circuit.package_index(
                    group(caps, 1),
                )].1@,
                pieces,
            )
        }
    }
}

/// What taking `line` as a line of the form `<component> <package> X,Y` does: `l0` and `reader0` are the layout
/// and the reader before, `l1` and `reader1` those after, `out` says how it ended.
pub open spec fn component_line(
    l0: Layout,
    reader0: CircuitFileParser,
    l1: Layout,
    reader1: CircuitFileParser,
    line: Seq<char>,
    out: Result<bool, ErrorKind>,
) -> bool {
    &&& reader1 == reader0
    &&& l1.circuit.parser_error_vec == l0.circuit.parser_error_vec
    &&& out != Ok::<bool, ErrorKind>(true) ==> l1 == l0
    &&& regex_captures(COMPONENT_FULL_RX@, line).is_none() <==> out == Ok::<bool, ErrorKind>(false)
    &&& regex_captures(COMPONENT_FULL_RX@, line).is_some() ==> out == component_outcome(
        l0,
        reader0,
        regex_captures(COMPONENT_FULL_RX@, line).unwrap(),
    )
    &&& out == Ok::<bool, ErrorKind>(true) ==> {
        let caps = regex_captures(COMPONENT_FULL_RX@, line).unwrap();
        &&& usize_of(group(caps, 3)).is_some()
        &&& usize_of(group(caps, 4)).is_some()
        &&& l0.circuit.has_package(group(caps, 2))
        &&& l1.circuit.has_component(group(caps, 1))
        &&& component_set(
            l0.circuit,
            l1.circuit,
            group(caps, 1),
            l1.circuit.component_name_to_component_map@[l1.circuit.component_index(group(caps, 1))].1,
        )
        &&& placed(
            l1.circuit.component_name_to_component_map@[l1.circuit.component_index(
                group(caps, 1),
            )].1,
            group(caps, 2),
            usize_of(group(caps, 3)).unwrap() + reader0.offset.x,
            usize_of(group(caps, 4)).unwrap() + reader0.offset.y,
        )
    }
}

/// What taking `line` as a line of the form `<component> i j k ...` does: `l0` and `reader0` are the layout
/// and the reader before, `l1` and `reader1` those after, `out` says how it ended.
pub open spec fn dont_care_line(
    l0: Layout,
    reader0: CircuitFileParser,
    l1: Layout,
    reader1: CircuitFileParser,
    line: Seq<char>,
    out: Result<bool, ErrorKind>,
) -> bool {
    &&& reader1 == reader0
    &&& regex_captures(DONT_CARE_FULL_RX@, line).is_none() <==> out == Ok::<bool, ErrorKind>(false)
    &&& regex_captures(DONT_CARE_FULL_RX@, line).is_none() ==> l1 == l0
    &&& l1 == (Layout { circuit: l1.circuit, ..l0 })
    &&& l1.circuit.package_to_pos_map == l0.circuit.package_to_pos_map
    &&& l1.circuit.connection_vec == l0.circuit.connection_vec
    &&& l1.circuit.parser_error_vec == l0.circuit.parser_error_vec
    &&& regex_captures(DONT_CARE_FULL_RX@, line).is_some() ==> {
        let caps = regex_captures(DONT_CARE_FULL_RX@, line).unwrap();
        let pieces = regex_split(WHITESPACE_SEP_RX@, group(caps, 2));
        let name = group(caps, 1);
        let pins = leading_numbers(pieces);
        let verdict = dont_care_verdict(l0.circuit, name, pins);
        &&& out == (match verdict {
            Some(kind) => Err::<bool, ErrorKind>(kind),
            None => if pins.len() < pieces.len() {
                Err::<bool, ErrorKind>(ErrorKind::NumberTooLarge)
            } else {
                Ok::<bool, ErrorKind>(true)
            },
        })
        &&& verdict == Some(ErrorKind::UnknownComponent) || verdict == Some(ErrorKind::UnknownPackage) ==> l1
            == l0
        &&& l0.circuit.has_component(name) ==> pins_marked(
            l0.circuit,
            l1.circuit,
            name,
            pins,
            taken_pins(pins, pin_count(l0.circuit, name) as int, 0),
        )
    }
}

/// What taking `line` as a line of the form `<component>.i <component>.j` does: `l0` and `reader0` are the layout
/// and the reader before, `l1` and `reader1` those after, `out` says how it ended.
pub open spec fn connection_line(
    l0: Layout,
    reader0: CircuitFileParser,
    l1: Layout,
    reader1: CircuitFileParser,
    line: Seq<char>,
    out: Result<bool, ErrorKind>,
) -> bool {
    &&& reader1 == reader0
    &&& l1.circuit.parser_error_vec == l0.circuit.parser_error_vec
    &&& out != Ok::<bool, ErrorKind>(true) ==> l1 == l0
    &&& regex_captures(CONNECTION_FULL_RX@, line).is_none() <==> out == Ok::<bool, ErrorKind>(false)
    &&& regex_captures(CONNECTION_FULL_RX@, line).is_some() ==> {
        let caps = regex_captures(CONNECTION_FULL_RX@, line).unwrap();
        let a = usize_of(group(caps, 2));
        let b = usize_of(group(caps, 4));
        if a.is_none() || b.is_none() {
            out == Err::<bool, ErrorKind>(ErrorKind::NumberTooLarge)
        } else {
            exists|start: ConnectionPoint, end: ConnectionPoint|
                {
                    &&& #[trigger] connects_pins(start, end, caps)
                    &&& out == connection_outcome(l0.circuit, start, end)
                    &&& out == Ok::<bool, ErrorKind>(true) ==> l1 == (Layout {
                        circuit: l1.circuit,
                        ..l0
                    }) && l1.circuit.package_to_pos_map == l0.circuit.package_to_pos_map && l1.circuit.component_name_to_component_map
                        == l0.circuit.component_name_to_component_map && l1.circuit.parser_error_vec == l0.circuit.parser_error_vec && l1.circuit.connection_vec@ == (if start.component_name@ != end.component_name@
                        || start.pin_idx != end.pin_idx {
                        l0.circuit.connection_vec@.push(Connection { start, end })
                    } else {
                        l0.circuit.connection_vec@
                    })
                }
        }
    }
}

/// What taking `line` as a line of the form `offset X,Y` does: `reader0` is the reader before,
/// `reader1` the reader after, `out` says how it ended.
pub open spec fn offset_line(reader0: CircuitFileParser, reader1: CircuitFileParser, line: Seq<char>, out: Result<bool, ErrorKind>) -> bool {
    &&& out != Ok::<bool, ErrorKind>(true) ==> reader1 == reader0
    &&& regex_captures(OFFSET_RX@, line).is_none() <==> out == Ok::<bool, ErrorKind>(false)
    &&& regex_captures(OFFSET_RX@, line).is_some() ==> {
        let p = position_of(regex_captures(OFFSET_RX@, line).unwrap());
        if p.is_some() {
            out == Ok::<bool, ErrorKind>(true) && reader1.offset == p.unwrap()
        } else {
            out == Err::<bool, ErrorKind>(ErrorKind::NumberTooLarge)
        }
    }
}

/// How a refusal or its absence reads as the end of taking a line.
pub open spec fn lifted(r: Result<(), ParseError>) -> Result<bool, ErrorKind> {
    match r {
        Ok(_) => Ok(true),
        Err(e) => Err(e.spec_kind()),
    }
}

/// How taking the pieces after the name of a package line ends.
pub open spec fn package_pieces_outcome(line: Seq<char>) -> Result<bool, ErrorKind> {
    let pieces = regex_split(WHITESPACE_SEP_RX@, group(regex_captures(PKG_NAME_RX@, line).unwrap(), 2));
    package_outcome(pieces, pieces.len() as int)
}

/// What taking `line` does: the forms are tried in a fixed order, connection, comment,
/// board, offset, package, component, pins not in use, and the first that fits decides; a
/// line that fits none is refused as unrecognized. `l0` and `reader0` are the layout and the
/// reader before, `l1` and `reader1` those after, `out` says how it ended.
pub open spec fn line_taken(
    l0: Layout,
    reader0: CircuitFileParser,
    l1: Layout,
    reader1: CircuitFileParser,
    line: Seq<char>,
    out: Result<bool, ErrorKind>,
) -> bool {
    if regex_captures(CONNECTION_FULL_RX@, line).is_some() {
        connection_line(l0, reader0, l1, reader1, line, out)
    } else if regex_captures(COMMENT_OR_EMPTY_FULL_RX@, line).is_some() {
        out == Ok::<bool, ErrorKind>(true) && l1 == l0 && reader1 == reader0
    } else if regex_captures(BOARD_SIZE_RX@, line).is_some() {
        board_line(l0, reader0, l1, reader1, line, out)
    } else if regex_captures(OFFSET_RX@, line).is_some() {
        l1 == l0 && offset_line(reader0, reader1, line, out)
    } else if regex_captures(PKG_NAME_RX@, line).is_some() && package_pieces_outcome(line) != Ok::<bool, ErrorKind>(
        false,
    ) {
        package_line(l0, reader0, l1, reader1, line, out)
    } else if regex_captures(COMPONENT_FULL_RX@, line).is_some() {
        component_line(l0, reader0, l1, reader1, line, out)
    } else if regex_captures(DONT_CARE_FULL_RX@, line).is_some() {
        dont_care_line(l0, reader0, l1, reader1, line, out)
    } else {
        out == Err::<bool, ErrorKind>(ErrorKind::Unrecognized) && l1 == l0 && reader1 == reader0
    }
}

/// The first `n` of `pieces`, without the empty ones, with one blank between each two.
pub open spec fn joined(pieces: Seq<Seq<char>>, n: int) -> Seq<char>
    decreases n,
{
    if n <= 0 {
        Seq::empty()
    } else {
        let before = joined(pieces, n - 1);
        if pieces[n - 1].len() == 0 {
            before
        } else if before.len() == 0 {
            pieces[n - 1]
        } else {
            before + seq![' '] + pieces[n - 1]
        }
    }
}

/// How taking the first `n` pieces of a package line ends: a piece without a pair of
/// numbers makes the line one of another form, a number that does not fit is refused.
pub open spec fn package_outcome(pieces: Seq<Seq<char>>, n: int) -> Result<bool, ErrorKind>
    decreases n,
{
    if n <= 0 {
        Ok(true)
    } else {
        let before = package_outcome(pieces, n - 1);
        if before != Ok::<bool, ErrorKind>(true) {
            before
        } else if regex_captures(PKG_POS_RX@, pieces[n - 1]).is_none() {
            Ok(false)
        } else if position_of(regex_captures(PKG_POS_RX@, pieces[n - 1]).unwrap()).is_none() {
            Err(ErrorKind::NumberTooLarge)
        } else {
            Ok(true)
        }
    }
}

proof fn lemma_package_outcome_stays(pieces: Seq<Seq<char>>, m: int, n: int)
    requires
        0 <= m <= n,
        package_outcome(pieces, m) != Ok::<bool, ErrorKind>(true),
    ensures
        package_outcome(pieces, n) == package_outcome(pieces, m),
    decreases n - m,
{
    if m < n {
        lemma_package_outcome_stays(pieces, m, n - 1);
    }
}

/// Whether `offsets` are the pin offsets that `pieces` write, piece by piece.
pub open spec fn written(offsets: Seq<OffsetVia>, pieces: Seq<Seq<char>>) -> bool {
    &&& offsets.len() == pieces.len()
    &&& forall|k: int|
        0 <= k < offsets.len() ==> Some(#[trigger] offsets[k]) == position_of(
            regex_captures(PKG_POS_RX@, pieces[k]).unwrap(),
        )
}

/// Whether `start` and `end` are the two pins that the match `caps` of
/// [`CONNECTION_FULL_RX`] names; the pins of the line count from 1, those of the points
/// from 0.
pub open spec fn connects_pins(start: ConnectionPoint, end: ConnectionPoint, caps: Seq<Option<Seq<char>>>) -> bool {
    &&& start.component_name@ == group(caps, 1)
    &&& end.component_name@ == group(caps, 3)
    &&& usize_of(group(caps, 2)).is_some()
    &&& usize_of(group(caps, 4)).is_some()
    &&& start.pin_idx == (if usize_of(group(caps, 2)).unwrap() == 0 {
        usize::MAX
    } else {
        (usize_of(group(caps, 2)).unwrap() - 1) as usize
    })
    &&& end.pin_idx == (if usize_of(group(caps, 4)).unwrap() == 0 {
        usize::MAX
    } else {
        (usize_of(group(caps, 4)).unwrap() - 1) as usize
    })
}

/// How adding the connection from `start` to `end` ends.
pub open spec fn connection_outcome(circuit: crate::circuit::Circuit, start: ConnectionPoint, end: ConnectionPoint) -> Result<
    bool,
    ErrorKind,
> {
    if point_verdict(circuit, start).is_some() {
        Err(point_verdict(circuit, start).unwrap())
    } else if point_verdict(circuit, end).is_some() {
        Err(point_verdict(circuit, end).unwrap())
    } else {
        Ok(true)
    }
}

} // verus!
