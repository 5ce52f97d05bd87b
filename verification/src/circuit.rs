//! The circuit to be routed: packages, components and the connections between pins.

use crate::board::Board;
use crate::util::copy_of;
use crate::via::{checked_via_from_offset, offset_in_range, via_from_offset, via_from_offset_spec, OffsetVia, StartEndVia, Via};
use vstd::prelude::*;

verus! {

/// A component: a package placed on the board.
#[derive(Clone, Debug)]
pub struct Component {
    pub package_name: String,
    /// Where the first pin of the package sits.
    pub pin0_abs_pos: Via,
    /// The pins, by index, that are declared unused.
    pub dont_care_pin_idx_set: Vec<usize>,
}

impl Component {
    pub fn new(package_name: String, pin0_abs_pos: Via) -> (c: Self)
        ensures
            c.package_name == package_name,
            c.pin0_abs_pos == pin0_abs_pos,
            c.dont_care_pin_idx_set@.len() == 0,
    {
        Self { package_name, pin0_abs_pos, dont_care_pin_idx_set: Vec::new() }
    }

    /// Whether pin `pin_idx` is declared unused.
    pub open spec fn spec_is_dont_care(&self, pin_idx: usize) -> bool {
        self.dont_care_pin_idx_set@.contains(pin_idx)
    }

    /// Whether pin `pin_idx` is declared unused.
    pub fn is_dont_care(&self, pin_idx: usize) -> (r: bool)
        ensures
            r == self.spec_is_dont_care(pin_idx),
    {
        let n = self.dont_care_pin_idx_set.len();
        let mut i: usize = 0;
        while i < n
            invariant
                i <= n,
                n == self.dont_care_pin_idx_set@.len(),
                forall|j: int| 0 <= j < i ==> self.dont_care_pin_idx_set@[j] != pin_idx,
            decreases n - i,
        {
            if self.dont_care_pin_idx_set[i] == pin_idx {
                return true;
            }
            i += 1;
        }
        false
    }
}

/// One end of a connection: a pin of a component, counted from zero.
#[derive(Clone, Debug)]
pub struct ConnectionPoint {
    pub component_name: String,
    pub pin_idx: usize,
}

impl ConnectionPoint {
    pub fn new(component_name: String, pin_idx: usize) -> (p: Self)
        ensures
            p.component_name == component_name,
            p.pin_idx == pin_idx,
    {
        Self { component_name, pin_idx }
    }
}

/// A requested electrical connection between two pins.
#[derive(Clone, Debug)]
pub struct Connection {
    pub start: ConnectionPoint,
    pub end: ConnectionPoint,
}

impl Connection {
    pub fn new(start: ConnectionPoint, end: ConnectionPoint) -> (c: Self)
        ensures
            c.start == start,
            c.end == end,
    {
        Self { start, end }
    }
}

/// Packages, components, connections, and what went wrong while they were read.
///
/// The two maps are lists of entries: a name and what it names. In a valid circuit no
/// name occurs twice in a list.
#[derive(Clone, Debug)]
pub struct Circuit {
    /// For each package, by name, the offsets of its pins from the first pin.
    pub package_to_pos_map: Vec<(String, Vec<OffsetVia>)>,
    /// The components, by name.
    pub component_name_to_component_map: Vec<(String, Component)>,
    pub connection_vec: Vec<Connection>,
    pub parser_error_vec: Vec<String>,
}

impl Circuit {
    /// Whether entry `i` of the package list is the package called `name`.
    pub open spec fn is_package(&self, i: int, name: Seq<char>) -> bool {
        0 <= i < self.package_to_pos_map@.len() && self.package_to_pos_map@[i].0@ == name
    }

    /// Whether entry `i` of the component list is the component called `name`.
    pub open spec fn is_component(&self, i: int, name: Seq<char>) -> bool {
        0 <= i < self.component_name_to_component_map@.len()
            && self.component_name_to_component_map@[i].0@ == name
    }

    /// Whether a package is called `name`.
    pub open spec fn has_package(&self, name: Seq<char>) -> bool {
        exists|i: int| self.is_package(i, name)
    }

    /// Whether a component is called `name`.
    pub open spec fn has_component(&self, name: Seq<char>) -> bool {
        exists|i: int| self.is_component(i, name)
    }

    /// The first place in the package list where `name` stands.
    #[verifier::opaque]
    pub open spec fn package_index(&self, name: Seq<char>) -> int {
        choose|i: int| self.is_package(i, name) && forall|j: int| 0 <= j < i ==> !self.is_package(j, name)
    }

    /// The first place in the component list where `name` stands.
    #[verifier::opaque]
    pub open spec fn component_index(&self, name: Seq<char>) -> int {
        choose|i: int| self.is_component(i, name) && forall|j: int| 0 <= j < i ==> !self.is_component(j, name)
    }

    /// A name that stands in a list has a first place there.
    pub proof fn lemma_first_place(&self, name: Seq<char>)
        ensures
            self.has_package(name) ==> self.is_package(self.package_index(name), name) && forall|j: int|
                0 <= j < self.package_index(name) ==> !self.is_package(j, name),
            self.has_component(name) ==> self.is_component(self.component_index(name), name) && forall|j: int|
                0 <= j < self.component_index(name) ==> !self.is_component(j, name),
    {
        reveal(Circuit::package_index);
        reveal(Circuit::component_index);
        if self.has_package(name) {
            let i = choose|i: int| self.is_package(i, name);
            self.lemma_first_package_from(name, i);
        }
        if self.has_component(name) {
            let i = choose|i: int| self.is_component(i, name);
            self.lemma_first_component_from(name, i);
        }
    }

    proof fn lemma_first_package_from(&self, name: Seq<char>, i: int)
        requires
            self.is_package(i, name),
        ensures
            exists|k: int| self.is_package(k, name) && forall|j: int| 0 <= j < k ==> !self.is_package(j, name),
        decreases i,
    {
        if exists|j: int| 0 <= j < i && self.is_package(j, name) {
            let j = choose|j: int| 0 <= j < i && self.is_package(j, name);
            self.lemma_first_package_from(name, j);
        } else {
            assert(self.is_package(i, name) && forall|j: int| 0 <= j < i ==> !self.is_package(j, name));
        }
    }

    proof fn lemma_first_component_from(&self, name: Seq<char>, i: int)
        requires
            self.is_component(i, name),
        ensures
            exists|k: int|
                self.is_component(k, name) && forall|j: int| 0 <= j < k ==> !self.is_component(j, name),
        decreases i,
    {
        if exists|j: int| 0 <= j < i && self.is_component(j, name) {
            let j = choose|j: int| 0 <= j < i && self.is_component(j, name);
            self.lemma_first_component_from(name, j);
        } else {
            assert(self.is_component(i, name) && forall|j: int| 0 <= j < i ==> !self.is_component(j, name));
        }
    }

    /// The pin offsets of the package of component `c`.
    pub open spec fn pin_offsets(&self, c: int) -> Seq<OffsetVia> {
        let package_name = self.component_name_to_component_map@[c].1.package_name@;
        self.package_to_pos_map@[self.package_index(package_name)].1@
    }

    /// The position on the board of pin `p` of component `c`.
    pub open spec fn pin_via(&self, c: int, p: int) -> Via {
        via_from_offset_spec(self.component_name_to_component_map@[c].1.pin0_abs_pos, self.pin_offsets(c)[p])
    }

    /// The position on the board of a connection's end.
    pub open spec fn point_via(&self, point: ConnectionPoint) -> Via {
        self.pin_via(self.component_index(point.component_name@), point.pin_idx as int)
    }

    /// The two ends of connection `i`.
    pub open spec fn connection_vias(&self, i: int) -> StartEndVia {
        StartEndVia {
            start: self.point_via(self.connection_vec@[i].start),
            end: self.point_via(self.connection_vec@[i].end),
        }
    }

    /// No package name and no component name occurs twice.
    pub open spec fn names_unique(&self) -> bool {
        &&& forall|i: int, j: int|
            0 <= i < j < self.package_to_pos_map@.len() ==> #[trigger] self.package_to_pos_map@[i].0@
                != #[trigger] self.package_to_pos_map@[j].0@
        &&& forall|i: int, j: int|
            0 <= i < j < self.component_name_to_component_map@.len()
                ==> #[trigger] self.component_name_to_component_map@[i].0@
                != #[trigger] self.component_name_to_component_map@[j].0@
    }

    /// Component `c` is of a known package and each of its pins lies on `board`.
    pub open spec fn component_fits(&self, board: Board, c: int) -> bool {
        let component = self.component_name_to_component_map@[c].1;
        &&& self.has_package(component.package_name@)
        &&& forall|p: int|
            0 <= p < self.pin_offsets(c).len() ==> offset_in_range(
                component.pin0_abs_pos,
                #[trigger] self.pin_offsets(c)[p],
            ) && board.contains(self.pin_via(c, p))
    }

    /// A connection's end names a pin that exists and is in use.
    pub open spec fn point_ok(&self, point: ConnectionPoint) -> bool {
        &&& self.has_component(point.component_name@)
        &&& point.pin_idx < self.pin_offsets(self.component_index(point.component_name@)).len()
        &&& !self.component_name_to_component_map@[self.component_index(
            point.component_name@,
        )].1.spec_is_dont_care(point.pin_idx)
    }

    /// The circuit is consistent and lies on `board`: names are unique, every component is
    /// of a known package and has all its pins on the board, and every connection joins
    /// two pins that exist and are in use.
    pub open spec fn wf(&self, board: Board) -> bool {
        &&& self.names_unique()
        &&& forall|c: int|
            0 <= c < self.component_name_to_component_map@.len() ==> #[trigger] self.component_fits(
                board,
                c,
            )
        &&& forall|i: int|
            0 <= i < self.connection_vec@.len() ==> self.point_ok(
                (#[trigger] self.connection_vec@[i]).start,
            ) && self.point_ok(self.connection_vec@[i].end)
    }

    /// In a circuit with unique names, a name is found at one place only.
    pub proof fn lemma_index_unique(&self)
        requires
            self.names_unique(),
        ensures
            forall|i: int, name: Seq<char>| #[trigger]
                self.is_package(i, name) ==> self.package_index(name) == i,
            forall|i: int, name: Seq<char>| #[trigger]
                self.is_component(i, name) ==> self.component_index(name) == i,
    {
        assert forall|i: int, name: Seq<char>| #[trigger] self.is_package(i, name) implies self.package_index(
            name,
        ) == i by {
            let j = self.package_index(name);
            self.lemma_first_place(name);
            assert(self.is_package(j, name));
            if i < j {
                assert(self.package_to_pos_map@[i].0@ != self.package_to_pos_map@[j].0@);
            }
            if j < i {
                assert(self.package_to_pos_map@[j].0@ != self.package_to_pos_map@[i].0@);
            }
        }
        assert forall|i: int, name: Seq<char>| #[trigger]
            self.is_component(i, name) implies self.component_index(name) == i by {
            let j = self.component_index(name);
            self.lemma_first_place(name);
            assert(self.is_component(j, name));
            if i < j {
                assert(self.component_name_to_component_map@[i].0@
                    != self.component_name_to_component_map@[j].0@);
            }
            if j < i {
                assert(self.component_name_to_component_map@[j].0@
                    != self.component_name_to_component_map@[i].0@);
            }
        }
    }

    /// In a valid circuit the end of a connection lies on the board.
    pub proof fn lemma_point_on_board(&self, board: Board, point: ConnectionPoint)
        requires
            self.wf(board),
            self.point_ok(point),
        ensures
            board.contains(self.point_via(point)),
    {
        let c = self.component_index(point.component_name@);
        self.lemma_first_place(point.component_name@);
        assert(self.is_component(c, point.component_name@));
        assert(self.component_fits(board, c));
        assert(board.contains(self.pin_via(c, point.pin_idx as int)));
    }

    /// The empty circuit.
    pub fn new() -> (c: Self)
        ensures
            c.package_to_pos_map@.len() == 0,
            c.component_name_to_component_map@.len() == 0,
            c.connection_vec@.len() == 0,
            c.parser_error_vec@.len() == 0,
    {
        Self {
            package_to_pos_map: Vec::new(),
            component_name_to_component_map: Vec::new(),
            connection_vec: Vec::new(),
            parser_error_vec: Vec::new(),
        }
    }

    /// Whether reading the circuit produced an error.
    pub fn has_parser_error(&self) -> (r: bool)
        ensures
            r == (self.parser_error_vec@.len() > 0),
    {
        self.parser_error_vec.len() > 0
    }

    /// The first place in the package list where `name` stands.
    pub fn find_package(&self, name: &String) -> (r: Option<usize>)
        ensures
            r.is_some() <==> self.has_package(name@),
            r.is_some() ==> self.is_package(r.unwrap() as int, name@),
            r.is_some() ==> forall|j: int| 0 <= j < r.unwrap() ==> !self.is_package(j, name@),
    {
        let n = self.package_to_pos_map.len();
        let mut i: usize = 0;
        while i < n
            invariant
                i <= n,
                n == self.package_to_pos_map@.len(),
                forall|j: int| 0 <= j < i ==> !self.is_package(j, name@),
            decreases n - i,
        {
            if self.package_to_pos_map[i].0 == *name {
                assert(self.is_package(i as int, name@));
                return Some(i);
            }
            i += 1;
        }
        None
    }

    /// The first place in the component list where `name` stands.
    pub fn find_component(&self, name: &String) -> (r: Option<usize>)
        ensures
            r.is_some() <==> self.has_component(name@),
            r.is_some() ==> self.is_component(r.unwrap() as int, name@),
            r.is_some() ==> forall|j: int| 0 <= j < r.unwrap() ==> !self.is_component(j, name@),
    {
        let n = self.component_name_to_component_map.len();
        let mut i: usize = 0;
        while i < n
            invariant
                i <= n,
                n == self.component_name_to_component_map@.len(),
                forall|j: int| 0 <= j < i ==> !self.is_component(j, name@),
            decreases n - i,
        {
            if self.component_name_to_component_map[i].0 == *name {
                assert(self.is_component(i as int, name@));
                return Some(i);
            }
            i += 1;
        }
        None
    }

    /// The place of the package called `name`, which exists.
    pub fn first_package(&self, name: &String) -> (k: usize)
        requires
            self.has_package(name@),
        ensures
            self.is_package(k as int, name@),
            k == self.package_index(name@),
    {
        match self.find_package(name) {
            Some(k) => {
                proof {
                    self.lemma_first_place(name@);
                }
                k
            },
            None => 0,
        }
    }

    /// The place of the component called `name`, which exists.
    pub fn first_component(&self, name: &String) -> (c: usize)
        requires
            self.has_component(name@),
        ensures
            self.is_component(c as int, name@),
            c == self.component_index(name@),
    {
        match self.find_component(name) {
            Some(c) => {
                proof {
                    self.lemma_first_place(name@);
                }
                c
            },
            None => 0,
        }
    }

    /// The positions on the board of the pins of the component at place `c`, in package
    /// order.
    pub fn component_pins_at(&self, board: Board, c: usize) -> (v: Vec<Via>)
        requires
            self.wf(board),
            c < self.component_name_to_component_map@.len(),
        ensures
            v@.len() == self.pin_offsets(c as int).len(),
            forall|p: int| 0 <= p < v@.len() ==> #[trigger] v@[p] == self.pin_via(c as int, p),
            forall|p: int| 0 <= p < v@.len() ==> board.contains(#[trigger] v@[p]),
    {
        proof {
            self.lemma_index_unique();
            assert(self.component_fits(board, c as int));
        }
        let component = &self.component_name_to_component_map[c].1;
        let mut v: Vec<Via> = Vec::new();
        match self.find_package(&component.package_name) {
            Some(k) => {
                let offsets = &self.package_to_pos_map[k].1;
                let n = offsets.len();
                let mut p: usize = 0;
                while p < n
                    invariant
                        p <= n,
                        n == offsets@.len(),
                        offsets@ == self.pin_offsets(c as int),
                        self.component_fits(board, c as int),
                        component == self.component_name_to_component_map@[c as int].1,
                        v@.len() == p,
                        forall|q: int| 0 <= q < p ==> #[trigger] v@[q] == self.pin_via(c as int, q),
                        forall|q: int| 0 <= q < p ==> board.contains(#[trigger] v@[q]),
                    decreases n - p,
                {
                    proof {
                        assert(offset_in_range(component.pin0_abs_pos, self.pin_offsets(c as int)[p as int]));
                    }
                    let pin = via_from_offset(&component.pin0_abs_pos, &offsets[p]);
                    v.push(pin);
                    p += 1;
                }
            },
            None => {},
        }
        v
    }

    /// The positions on the board of the pins of the component called `component_name`, in
    /// package order.
    pub fn calc_component_pins(&self, board: Board, component_name: &String) -> (v: Vec<Via>)
        requires
            self.wf(board),
            self.has_component(component_name@),
        ensures
            v@.len() == self.pin_offsets(self.component_index(component_name@)).len(),
            forall|p: int|
                0 <= p < v@.len() ==> #[trigger] v@[p] == self.pin_via(
                    self.component_index(component_name@),
                    p,
                ),
            forall|p: int| 0 <= p < v@.len() ==> board.contains(#[trigger] v@[p]),
    {
        proof {
            self.lemma_index_unique();
        }
        match self.find_component(component_name) {
            Some(c) => self.component_pins_at(board, c),
            None => Vec::new(),
        }
    }

    /// The smallest box around the pins of the component at place `c`: `start` holds the
    /// least column and row, `end` the greatest. Of a package without pins the box is
    /// inside out, from (`usize::MAX`, `usize::MAX`) to (0, 0).
    pub fn footprint_at(&self, board: Board, c: usize) -> (v: StartEndVia)
        requires
            self.wf(board),
            c < self.component_name_to_component_map@.len(),
        ensures
            is_bounding_box(v, Seq::new(self.pin_offsets(c as int).len(), |p: int| self.pin_via(c as int, p))),
    {
        let pins = self.component_pins_at(board, c);
        let ghost all = Seq::new(self.pin_offsets(c as int).len(), |p: int| self.pin_via(c as int, p));
        assert(pins@ =~= all);
        let mut v = StartEndVia { start: Via { x: usize::MAX, y: usize::MAX }, end: Via { x: 0, y: 0 } };
        let n = pins.len();
        let mut i: usize = 0;
        while i < n
            invariant
                i <= n,
                n == pins@.len(),
                is_bounding_box(v, pins@.subrange(0, i as int)),
            decreases n - i,
        {
            let c = pins[i];
            let ghost before = v;
            if c.x < v.start.x {
                v.start.x = c.x;
            }
            if c.x > v.end.x {
                v.end.x = c.x;
            }
            if c.y < v.start.y {
                v.start.y = c.y;
            }
            if c.y > v.end.y {
                v.end.y = c.y;
            }
            proof {
                let shorter = pins@.subrange(0, i as int);
                let longer = pins@.subrange(0, i as int + 1);
                assert(longer[i as int] == c);
                assert forall|p: int| 0 <= p < longer.len() implies box_holds(v, #[trigger] longer[p]) by {
                    if p < i {
                        assert(box_holds(before, shorter[p]));
                    }
                }
                if i > 0 {
                    let (a, b, d, e) = choose|a: int, b: int, d: int, e: int|
                        box_touched(before, shorter, a, b, d, e);
                    let a2 = if c.x < before.start.x { i as int } else { a };
                    let b2 = if c.y < before.start.y { i as int } else { b };
                    let d2 = if c.x > before.end.x { i as int } else { d };
                    let e2 = if c.y > before.end.y { i as int } else { e };
                    assert(longer[a] == shorter[a] && longer[b] == shorter[b] && longer[d] == shorter[d]
                        && longer[e] == shorter[e]);
                    assert(box_touched(v, longer, a2, b2, d2, e2));
                } else {
                    assert(box_touched(v, longer, 0, 0, 0, 0));
                }
            }
            i += 1;
        }
        assert(pins@.subrange(0, n as int) == pins@);
        v
    }

    /// The smallest box around the pins of the component called `component_name`.
    pub fn calc_component_footprint(&self, board: Board, component_name: String) -> (v: StartEndVia)
        requires
            self.wf(board),
            self.has_component(component_name@),
        ensures
            ({
                let c = self.component_index(component_name@);
                is_bounding_box(v, Seq::new(self.pin_offsets(c).len(), |p: int| self.pin_via(c, p)))
            }),
    {
        proof {
            self.lemma_index_unique();
        }
        match self.find_component(&component_name) {
            Some(c) => self.footprint_at(board, c),
            None => StartEndVia { start: Via { x: usize::MAX, y: usize::MAX }, end: Via { x: 0, y: 0 } },
        }
    }

    /// The position of a connection's end.
    fn point_to_via(&self, board: Board, point: &ConnectionPoint) -> (v: Via)
        requires
            self.wf(board),
            self.point_ok(*point),
        ensures
            v == self.point_via(*point),
            board.contains(v),
    {
        proof {
            self.lemma_index_unique();
        }
        match self.find_component(&point.component_name) {
            Some(c) => {
                proof {
                    assert(self.component_fits(board, c as int));
                }
                let component = &self.component_name_to_component_map[c].1;
                match self.find_package(&component.package_name) {
                    Some(k) => {
                        proof {
                            assert(offset_in_range(
                                component.pin0_abs_pos,
                                self.pin_offsets(c as int)[point.pin_idx as int],
                            ));
                        }
                        via_from_offset(&component.pin0_abs_pos, &self.package_to_pos_map[k].1[point.pin_idx])
                    },
                    None => Via { x: 0, y: 0 },
                }
            },
            None => Via { x: 0, y: 0 },
        }
    }

    /// For each connection, in order, the positions of its two ends.
    pub fn gen_connection_via_vec(&self, board: Board) -> (v: Vec<StartEndVia>)
        requires
            self.wf(board),
        ensures
            v@.len() == self.connection_vec@.len(),
            forall|i: int| 0 <= i < v@.len() ==> #[trigger] v@[i] == self.connection_vias(i),
            forall|i: int|
                0 <= i < v@.len() ==> board.contains((#[trigger] v@[i]).start) && board.contains(v@[i].end),
    {
        let mut v: Vec<StartEndVia> = Vec::new();
        let n = self.connection_vec.len();
        let mut i: usize = 0;
        while i < n
            invariant
                i <= n,
                n == self.connection_vec@.len(),
                self.wf(board),
                v@.len() == i,
                forall|j: int| 0 <= j < i ==> #[trigger] v@[j] == self.connection_vias(j),
                forall|j: int|
                    0 <= j < i ==> board.contains((#[trigger] v@[j]).start) && board.contains(v@[j].end),
            decreases n - i,
        {
            let c = &self.connection_vec[i];
            let start = self.point_to_via(board, &c.start);
            let end = self.point_to_via(board, &c.end);
            v.push(StartEndVia::new(start, end));
            i += 1;
        }
        v
    }

    /// Whether no package name occurs twice.
    fn package_names_are_unique(&self) -> (ok: bool)
        ensures
            ok == (forall|i: int, j: int|
                0 <= i < j < self.package_to_pos_map@.len() ==> #[trigger] self.package_to_pos_map@[i].0@
                    != #[trigger] self.package_to_pos_map@[j].0@),
    {
        let n = self.package_to_pos_map.len();
        let mut j: usize = 0;
        while j < n
            invariant
                j <= n,
                n == self.package_to_pos_map@.len(),
                forall|a: int, b: int|
                    0 <= a < b < j ==> #[trigger] self.package_to_pos_map@[a].0@
                        != #[trigger] self.package_to_pos_map@[b].0@,
            decreases n - j,
        {
            let mut i: usize = 0;
            while i < j
                invariant
                    i <= j < n,
                    n == self.package_to_pos_map@.len(),
                    forall|a: int|
                        0 <= a < i ==> #[trigger] self.package_to_pos_map@[a].0@
                            != self.package_to_pos_map@[j as int].0@,
                decreases j - i,
            {
                if self.package_to_pos_map[i].0 == self.package_to_pos_map[j].0 {
                    return false;
                }
                i += 1;
            }
            j += 1;
        }
        true
    }

    /// Whether no component name occurs twice.
    fn component_names_are_unique(&self) -> (ok: bool)
        ensures
            ok == (forall|i: int, j: int|
                0 <= i < j < self.component_name_to_component_map@.len()
                    ==> #[trigger] self.component_name_to_component_map@[i].0@
                    != #[trigger] self.component_name_to_component_map@[j].0@),
    {
        let n = self.component_name_to_component_map.len();
        let mut j: usize = 0;
        while j < n
            invariant
                j <= n,
                n == self.component_name_to_component_map@.len(),
                forall|a: int, b: int|
                    0 <= a < b < j ==> #[trigger] self.component_name_to_component_map@[a].0@
                        != #[trigger] self.component_name_to_component_map@[b].0@,
            decreases n - j,
        {
            let mut i: usize = 0;
            while i < j
                invariant
                    i <= j < n,
                    n == self.component_name_to_component_map@.len(),
                    forall|a: int|
                        0 <= a < i ==> #[trigger] self.component_name_to_component_map@[a].0@
                            != self.component_name_to_component_map@[j as int].0@,
                decreases j - i,
            {
                if self.component_name_to_component_map[i].0 == self.component_name_to_component_map[j].0 {
                    return false;
                }
                i += 1;
            }
            j += 1;
        }
        true
    }

    /// Whether the component at place `c` is of a known package and has all its pins on
    /// `board`.
    fn component_is_ok(&self, board: Board, c: usize) -> (ok: bool)
        requires
            self.names_unique(),
            c < self.component_name_to_component_map@.len(),
        ensures
            ok == self.component_fits(board, c as int),
    {
        proof {
            self.lemma_index_unique();
        }
        let component = &self.component_name_to_component_map[c].1;
        match self.find_package(&component.package_name) {
            None => false,
            Some(k) => {
                let offsets = &self.package_to_pos_map[k].1;
                let n = offsets.len();
                let mut p: usize = 0;
                while p < n
                    invariant
                        p <= n,
                        n == offsets@.len(),
                        offsets@ == self.pin_offsets(c as int),
                        component == self.component_name_to_component_map@[c as int].1,
                        self.has_package(component.package_name@),
                        forall|q: int|
                            0 <= q < p ==> offset_in_range(
                                component.pin0_abs_pos,
                                #[trigger] self.pin_offsets(c as int)[q],
                            ) && board.contains(self.pin_via(c as int, q)),
                    decreases n - p,
                {
                    match checked_via_from_offset(&component.pin0_abs_pos, &offsets[p]) {
                        None => {
                            assert(!offset_in_range(component.pin0_abs_pos, self.pin_offsets(c as int)[p as int]));
                            return false;
                        },
                        Some(v) => {
                            if !board.has(v) {
                                assert(!board.contains(self.pin_via(c as int, p as int)));
                                assert(self.pin_offsets(c as int)[p as int] == offsets@[p as int]);
                                return false;
                            }
                        },
                    }
                    p += 1;
                }
                true
            },
        }
    }

    /// Whether `point` names a pin that exists and is in use.
    fn point_is_ok(&self, board: Board, point: &ConnectionPoint) -> (ok: bool)
        requires
            self.names_unique(),
            forall|c: int|
                0 <= c < self.component_name_to_component_map@.len() ==> #[trigger] self.component_fits(
                    board,
                    c,
                ),
        ensures
            ok == self.point_ok(*point),
    {
        proof {
            self.lemma_index_unique();
        }
        match self.find_component(&point.component_name) {
            None => false,
            Some(c) => {
                proof {
                    assert(self.component_fits(board, c as int));
                }
                let component = &self.component_name_to_component_map[c].1;
                match self.find_package(&component.package_name) {
                    None => false,
                    Some(k) => point.pin_idx < self.package_to_pos_map[k].1.len() && !component.is_dont_care(
                        point.pin_idx,
                    ),
                }
            },
        }
    }

    /// Whether the circuit is consistent and lies on `board`.
    pub fn is_valid(&self, board: Board) -> (ok: bool)
        ensures
            ok == self.wf(board),
    {
        if !self.package_names_are_unique() || !self.component_names_are_unique() {
            return false;
        }
        let n = self.component_name_to_component_map.len();
        let mut c: usize = 0;
        while c < n
            invariant
                c <= n,
                n == self.component_name_to_component_map@.len(),
                self.names_unique(),
                forall|k: int| 0 <= k < c ==> #[trigger] self.component_fits(board, k),
            decreases n - c,
        {
            if !self.component_is_ok(board, c) {
                return false;
            }
            c += 1;
        }
        let m = self.connection_vec.len();
        let mut i: usize = 0;
        while i < m
            invariant
                i <= m,
                m == self.connection_vec@.len(),
                self.names_unique(),
                forall|k: int|
                    0 <= k < self.component_name_to_component_map@.len() ==> #[trigger] self.component_fits(
                        board,
                        k,
                    ),
                forall|k: int|
                    0 <= k < i ==> self.point_ok((#[trigger] self.connection_vec@[k]).start) && self.point_ok(
                        self.connection_vec@[k].end,
                    ),
            decreases m - i,
        {
            let connection = &self.connection_vec[i];
            if !self.point_is_ok(board, &connection.start) || !self.point_is_ok(board, &connection.end) {
                return false;
            }
            i += 1;
        }
        true
    }

    /// Defines the package `name` with the pin offsets `offsets`; a package of that name
    /// that exists already is replaced.
    pub fn set_package(&mut self, name: String, offsets: Vec<OffsetVia>)
        ensures
            final(self).component_name_to_component_map == old(self).component_name_to_component_map,
            final(self).connection_vec == old(self).connection_vec,
            final(self).parser_error_vec == old(self).parser_error_vec,
            old(self).has_package(name@) ==> exists|i: int| #[trigger]
                old(self).is_package(i, name@) && final(self).package_to_pos_map@ == old(self).package_to_pos_map@.update(i, (old(self).package_to_pos_map@[i].0, offsets)),
            !old(self).has_package(name@) ==> final(self).package_to_pos_map@ == old(self).package_to_pos_map@.push((name, offsets)),
            final(self).has_package(name@),
            final(self).package_index(name@) == (if old(self).has_package(name@) {
                old(self).package_index(name@)
            } else {
                old(self).package_to_pos_map@.len() as int
            }),
            final(self).package_to_pos_map@[final(self).package_index(name@)].1 == offsets,
    {
        proof {
            self.lemma_first_place(name@);
        }
        let ghost old_self = *self;
        match self.find_package(&name) {
            Some(i) => {
                let ghost before = self.package_to_pos_map@;
                self.package_to_pos_map[i].1 = offsets;
                proof {
                    assert(self.package_to_pos_map@ =~= before.update(i as int, (before[i as int].0, offsets)));
                    assert(self.is_package(i as int, name@));
                    assert forall|j: int| 0 <= j < i implies !self.is_package(j, name@) by {
                        assert(!old_self.is_package(j, name@));
                    }
                    self.lemma_first_place(name@);
                    let k = self.package_index(name@);
                    if k < i {
                        assert(!self.is_package(k, name@));
                    }
                    if i < k {
                        assert(self.is_package(i as int, name@));
                    }
                    let k0 = old_self.package_index(name@);
                    if k0 < i {
                        assert(!old_self.is_package(k0, name@));
                    }
                    if i < k0 {
                        assert(old_self.is_package(i as int, name@));
                    }
                }
            },
            None => {
                let ghost n = self.package_to_pos_map@.len() as int;
                self.package_to_pos_map.push((name, offsets));
                proof {
                    assert(self.is_package(n, name@));
                    assert forall|j: int| 0 <= j < n implies !self.is_package(j, name@) by {
                        assert(!old_self.is_package(j, name@));
                    }
                    self.lemma_first_place(name@);
                    let k = self.package_index(name@);
                    if k < n {
                        assert(!self.is_package(k, name@));
                    }
                    if n < k {
                        assert(self.is_package(n, name@));
                    }
                }
            },
        }
    }

    /// Places the component `name`; a component of that name that exists already is
    /// replaced.
    pub fn set_component(&mut self, name: String, component: Component)
        ensures
            final(self).package_to_pos_map == old(self).package_to_pos_map,
            final(self).connection_vec == old(self).connection_vec,
            final(self).parser_error_vec == old(self).parser_error_vec,
            old(self).has_component(name@) ==> exists|i: int| #[trigger]
                old(self).is_component(i, name@) && final(self).component_name_to_component_map@ == old(self).component_name_to_component_map@.update(
                    i,
                    (old(self).component_name_to_component_map@[i].0, component),
                ),
            !old(self).has_component(name@) ==> final(self).component_name_to_component_map@ == old(self).component_name_to_component_map@.push((name, component)),
            final(self).has_component(name@),
            final(self).component_index(name@) == (if old(self).has_component(name@) {
                old(self).component_index(name@)
            } else {
                old(self).component_name_to_component_map@.len() as int
            }),
            final(self).component_name_to_component_map@[final(self).component_index(name@)].1 == component,
            component_set(*old(self), *final(self), name@, component),
    {
        proof {
            self.lemma_first_place(name@);
        }
        let ghost old_self = *self;
        proof {
            reveal(component_set);
        }
        match self.find_component(&name) {
            Some(i) => {
                let ghost before = self.component_name_to_component_map@;
                self.component_name_to_component_map[i].1 = component;
                proof {
                    assert(self.component_name_to_component_map@ =~= before.update(
                        i as int,
                        (before[i as int].0, component),
                    ));
                    assert(self.is_component(i as int, name@));
                    assert forall|j: int| 0 <= j < i implies !self.is_component(j, name@) by {
                        assert(!old_self.is_component(j, name@));
                    }
                    self.lemma_first_place(name@);
                    let k = self.component_index(name@);
                    if k < i {
                        assert(!self.is_component(k, name@));
                    }
                    if i < k {
                        assert(self.is_component(i as int, name@));
                    }
                    let k0 = old_self.component_index(name@);
                    if k0 < i {
                        assert(!old_self.is_component(k0, name@));
                    }
                    if i < k0 {
                        assert(old_self.is_component(i as int, name@));
                    }
                }
            },
            None => {
                let ghost n = self.component_name_to_component_map@.len() as int;
                self.component_name_to_component_map.push((name, component));
                proof {
                    assert(self.component_name_to_component_map@.drop_last()
                        =~= old_self.component_name_to_component_map@);
                    assert(self.is_component(n, name@));
                    assert forall|j: int| 0 <= j < n implies !self.is_component(j, name@) by {
                        assert(!old_self.is_component(j, name@));
                    }
                    self.lemma_first_place(name@);
                    let k = self.component_index(name@);
                    if k < n {
                        assert(!self.is_component(k, name@));
                    }
                    if n < k {
                        assert(self.is_component(n, name@));
                    }
                }
            },
        }
    }
}

/// Whether `after` is `before` with the component `component` under the name `name`: in
/// the place of the component that had the name before, or, where none had it, behind the
/// last; everything else is as it was.
#[verifier::opaque]
pub open spec fn component_set(before: Circuit, after: Circuit, name: Seq<char>, component: Component) -> bool {
    &&& after.package_to_pos_map == before.package_to_pos_map
    &&& after.connection_vec == before.connection_vec
    &&& after.parser_error_vec == before.parser_error_vec
    &&& if before.has_component(name) {
        after.component_name_to_component_map@ == before.component_name_to_component_map@.update(
            before.component_index(name),
            (before.component_name_to_component_map@[before.component_index(name)].0, component),
        )
    } else {
        &&& after.component_name_to_component_map@.len() == before.component_name_to_component_map@.len() + 1
        &&& after.component_name_to_component_map@.drop_last() == before.component_name_to_component_map@
        &&& after.component_name_to_component_map@.last().0@ == name
        &&& after.component_name_to_component_map@.last().1 == component
    }
}

/// Whether `pin` lies inside the box `b`.
pub open spec fn box_holds(b: StartEndVia, pin: Via) -> bool {
    b.start.x <= pin.x <= b.end.x && b.start.y <= pin.y <= b.end.y
}

/// Whether the four sides of `b` are touched by the pins at places `a`, `c`, `d` and `e`.
pub open spec fn box_touched(b: StartEndVia, pins: Seq<Via>, a: int, c: int, d: int, e: int) -> bool {
    &&& 0 <= a < pins.len() && pins[a].x == b.start.x
    &&& 0 <= c < pins.len() && pins[c].y == b.start.y
    &&& 0 <= d < pins.len() && pins[d].x == b.end.x
    &&& 0 <= e < pins.len() && pins[e].y == b.end.y
}

/// Whether `b` is the smallest box around `pins`: every pin lies inside and each side is
/// touched by a pin. Around no pins it is the box from (`usize::MAX`, `usize::MAX`) to
/// (0, 0).
pub open spec fn is_bounding_box(b: StartEndVia, pins: Seq<Via>) -> bool {
    if pins.len() == 0 {
        b == (StartEndVia { start: Via { x: usize::MAX, y: usize::MAX }, end: Via { x: 0, y: 0 } })
    } else {
        &&& forall|p: int| 0 <= p < pins.len() ==> box_holds(b, #[trigger] pins[p])
        &&& exists|a: int, c: int, d: int, e: int| box_touched(b, pins, a, c, d, e)
    }
}

/// Whether `b` holds what `a` holds.
pub open spec fn same_offsets(a: Seq<(String, Vec<OffsetVia>)>, b: Seq<(String, Vec<OffsetVia>)>) -> bool {
    &&& a.len() == b.len()
    &&& forall|i: int| 0 <= i < a.len() ==> (#[trigger] b[i]).0 == a[i].0 && b[i].1@ == a[i].1@
}

/// Whether `b` is the component `a`.
pub open spec fn same_component(a: Component, b: Component) -> bool {
    &&& b.package_name == a.package_name
    &&& b.pin0_abs_pos == a.pin0_abs_pos
    &&& b.dont_care_pin_idx_set@ == a.dont_care_pin_idx_set@
}

/// Whether `b` holds what `a` holds.
pub open spec fn same_components(a: Seq<(String, Component)>, b: Seq<(String, Component)>) -> bool {
    &&& a.len() == b.len()
    &&& forall|i: int| 0 <= i < a.len() ==> (#[trigger] b[i]).0 == a[i].0 && same_component(a[i].1, b[i].1)
}

/// Whether `b` holds what `a` holds.
pub open spec fn same_texts(a: Seq<String>, b: Seq<String>) -> bool {
    &&& a.len() == b.len()
    &&& forall|i: int| 0 <= i < a.len() ==> #[trigger] b[i] == a[i]
}

/// A copy of `v`.
pub fn copy_texts(v: &Vec<String>) -> (r: Vec<String>)
    ensures
        same_texts(v@, r@),
{
    let mut r: Vec<String> = Vec::new();
    let mut i: usize = 0;
    while i < v.len()
        invariant
            i <= v@.len(),
            r@.len() == i,
            forall|k: int| 0 <= k < i ==> #[trigger] r@[k] == v@[k],
        decreases v@.len() - i,
    {
        r.push(v[i].clone());
        i += 1;
    }
    r
}

impl Circuit {
    /// Whether `other` holds the packages, components, connections and errors of this
    /// circuit.
    pub open spec fn same_as(&self, other: &Circuit) -> bool {
        &&& same_offsets(self.package_to_pos_map@, other.package_to_pos_map@)
        &&& same_components(self.component_name_to_component_map@, other.component_name_to_component_map@)
        &&& other.connection_vec@ == self.connection_vec@
        &&& same_texts(self.parser_error_vec@, other.parser_error_vec@)
    }

    /// A copy of the circuit.
    pub fn duplicate(&self) -> (r: Self)
        ensures
            self.same_as(&r),
    {
        let mut packages: Vec<(String, Vec<OffsetVia>)> = Vec::new();
        let mut i: usize = 0;
        while i < self.package_to_pos_map.len()
            invariant
                i <= self.package_to_pos_map@.len(),
                packages@.len() == i,
                forall|k: int|
                    0 <= k < i ==> (#[trigger] packages@[k]).0 == self.package_to_pos_map@[k].0 && packages@[k].1@
                        == self.package_to_pos_map@[k].1@,
            decreases self.package_to_pos_map@.len() - i,
        {
            packages.push((self.package_to_pos_map[i].0.clone(), copy_of(&self.package_to_pos_map[i].1)));
            i += 1;
        }
        let mut components: Vec<(String, Component)> = Vec::new();
        let mut i: usize = 0;
        while i < self.component_name_to_component_map.len()
            invariant
                i <= self.component_name_to_component_map@.len(),
                components@.len() == i,
                forall|k: int|
                    0 <= k < i ==> (#[trigger] components@[k]).0 == self.component_name_to_component_map@[k].0
                        && same_component(self.component_name_to_component_map@[k].1, components@[k].1),
            decreases self.component_name_to_component_map@.len() - i,
        {
            let c = &self.component_name_to_component_map[i].1;
            let copy = Component {
                package_name: c.package_name.clone(),
                pin0_abs_pos: c.pin0_abs_pos,
                dont_care_pin_idx_set: copy_of(&c.dont_care_pin_idx_set),
            };
            components.push((self.component_name_to_component_map[i].0.clone(), copy));
            i += 1;
        }
        let mut connections: Vec<Connection> = Vec::new();
        let mut i: usize = 0;
        while i < self.connection_vec.len()
            invariant
                i <= self.connection_vec@.len(),
                connections@ == self.connection_vec@.subrange(0, i as int),
            decreases self.connection_vec@.len() - i,
        {
            let c = &self.connection_vec[i];
            let copy = Connection {
                start: ConnectionPoint { component_name: c.start.component_name.clone(), pin_idx: c.start.pin_idx },
                end: ConnectionPoint { component_name: c.end.component_name.clone(), pin_idx: c.end.pin_idx },
            };
            connections.push(copy);
            proof {
                assert(self.connection_vec@.subrange(0, i as int + 1) =~= self.connection_vec@.subrange(
                    0,
                    i as int,
                ).push(self.connection_vec@[i as int]));
            }
            i += 1;
        }
        proof {
            assert(self.connection_vec@.subrange(0, self.connection_vec@.len() as int) =~= self.connection_vec@);
        }
        Self {
            package_to_pos_map: packages,
            component_name_to_component_map: components,
            connection_vec: connections,
            parser_error_vec: copy_texts(&self.parser_error_vec),
        }
    }
}

} // verus!
