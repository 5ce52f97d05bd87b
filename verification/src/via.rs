//! Grid addresses and the small records built from them.

use crate::util::{digits_of, hex_pair, hex_pair_text, number_text};
use vstd::prelude::*;
use vstd::string::*;

verus! {

/// A hole in the stripboard, addressed by column `x` and row `y`.
#[derive(Clone, Copy, PartialEq, Eq, Structural, Debug, Hash)]
pub struct Via {
    pub x: usize,
    pub y: usize,
}

impl Via {
    pub fn new(x: usize, y: usize) -> (v: Self)
        ensures
            v.x == x,
            v.y == y,
    {
        Self { x, y }
    }
}

/// The text of a via: `Via(x,y)` with each coordinate in hexadecimal digits, at least two.
pub open spec fn via_text(v: Via) -> Seq<char> {
    seq!['V', 'i', 'a', '('] + hex_pair(v.x as nat) + seq![','] + hex_pair(v.y as nat) + seq![')']
}

/// The via as text: `Via(x,y)` with each coordinate in hexadecimal digits, at least two.
pub fn via_to_str(v: &Via) -> (r: String)
    ensures
        r@ == via_text(*v),
{
    proof {
        reveal_strlit("Via(");
        reveal_strlit(",");
        reveal_strlit(")");
    }
    let r = String::from_str("Via(").concat(hex_pair_text(v.x).as_str()).concat(",").concat(
        hex_pair_text(v.y).as_str(),
    ).concat(")");
    proof {
        assert(r@ =~= via_text(*v));
    }
    r
}

/// A signed displacement between two vias.
#[derive(Clone, Copy, PartialEq, Eq, Structural, Debug, Hash)]
pub struct OffsetVia {
    pub x: isize,
    pub y: isize,
}

impl OffsetVia {
    pub fn new(x: isize, y: isize) -> (v: Self)
        ensures
            v.x == x,
            v.y == y,
    {
        Self { x, y }
    }
}

/// Whether `v` displaced by `offset` is again a via, that is, has coordinates that are
/// not negative and fit the machine word.
pub open spec fn offset_in_range(v: Via, offset: OffsetVia) -> bool {
    &&& 0 <= v.x + offset.x <= usize::MAX
    &&& 0 <= v.y + offset.y <= usize::MAX
}

/// The via reached from `v` by `offset`.
pub open spec fn via_from_offset_spec(v: Via, offset: OffsetVia) -> Via {
    Via { x: (v.x + offset.x) as usize, y: (v.y + offset.y) as usize }
}

/// One coordinate moved by a signed amount, or `None` when the result is no coordinate.
pub fn coordinate_from_offset(c: usize, d: isize) -> (r: Option<usize>)
    ensures
        r.is_some() <==> 0 <= c + d <= usize::MAX,
        r.is_some() ==> r.unwrap() == c + d,
{
    if d >= 0 {
        let m: usize = d as usize;
        if m <= usize::MAX - c {
            Some(c + m)
        } else {
            None
        }
    } else {
        // -d may not fit isize, but -(d + 1) always does.
        let m: usize = (-(d + 1)) as usize;
        if m < c {
            Some(c - m - 1)
        } else {
            None
        }
    }
}

/// The via reached from `v` by `offset`, or `None` when a coordinate would leave the
/// range of `usize`.
pub fn checked_via_from_offset(v: &Via, offset: &OffsetVia) -> (r: Option<Via>)
    ensures
        r.is_some() <==> offset_in_range(*v, *offset),
        r.is_some() ==> r.unwrap() == via_from_offset_spec(*v, *offset),
{
    match coordinate_from_offset(v.x, offset.x) {
        Some(x) => match coordinate_from_offset(v.y, offset.y) {
            Some(y) => Some(Via { x, y }),
            None => None,
        },
        None => None,
    }
}

/// The via reached from `v` by `offset`.
pub fn via_from_offset(v: &Via, offset: &OffsetVia) -> (r: Via)
    requires
        offset_in_range(*v, *offset),
    ensures
        r == via_from_offset_spec(*v, *offset),
{
    match checked_via_from_offset(v, offset) {
        Some(r) => r,
        None => *v,
    }
}

/// A via together with a flag that says whether it holds a position at all.
#[derive(Clone, Copy, PartialEq, Eq, Structural, Debug)]
pub struct ValidVia {
    pub via: Via,
    pub is_valid: bool,
}

impl ValidVia {
    /// The absent via.
    pub fn new() -> (r: Self)
        ensures
            !r.is_valid,
            r.via == (Via { x: usize::MAX, y: usize::MAX }),
    {
        Self { via: Via { x: usize::MAX, y: usize::MAX }, is_valid: false }
    }

    pub fn from_via(via: Via) -> (r: Self)
        ensures
            r.is_valid,
            r.via == via,
    {
        Self { via, is_valid: true }
    }
}

/// A via on one of the two layers: a node of the routing graph.
#[derive(Clone, Copy, PartialEq, Eq, Structural, Debug, Hash)]
pub struct LayerVia {
    pub via: Via,
    pub is_wire_layer: bool,
}

impl LayerVia {
    /// The strip-layer node at the origin.
    pub fn new() -> (r: Self)
        ensures
            r == (LayerVia { via: Via { x: 0, y: 0 }, is_wire_layer: false }),
    {
        Self { via: Via { x: 0, y: 0 }, is_wire_layer: false }
    }

    pub fn from_via(via: Via, is_wire_layer: bool) -> (r: Self)
        ensures
            r.via == via,
            r.is_wire_layer == is_wire_layer,
    {
        Self { via, is_wire_layer }
    }

    /// The node that a frontier entry stands for.
    pub fn from_layer_cost_via(entry: &LayerCostVia) -> (r: Self)
        ensures
            r == entry.layer_via,
    {
        LayerVia::from_via(entry.layer_via.via, entry.layer_via.is_wire_layer)
    }

    /// The text of the node: `LayerVia(x,y,layer)` with each coordinate in hexadecimal
    /// digits, at least two, and the layer as `wire` or `strip`.
    pub open spec fn spec_text(&self) -> Seq<char> {
        seq!['L', 'a', 'y', 'e', 'r', 'V', 'i', 'a', '('] + hex_pair(self.via.x as nat) + seq![','] + hex_pair(
            self.via.y as nat,
        ) + seq![','] + (if self.is_wire_layer {
            seq!['w', 'i', 'r', 'e']
        } else {
            seq!['s', 't', 'r', 'i', 'p']
        }) + seq![')']
    }

    /// The node as text.
    pub fn to_text(&self) -> (r: String)
        ensures
            r@ == self.spec_text(),
    {
        proof {
            reveal_strlit("LayerVia(");
            reveal_strlit(",");
            reveal_strlit("wire");
            reveal_strlit("strip");
            reveal_strlit(")");
        }
        let layer = if self.is_wire_layer {
            "wire"
        } else {
            "strip"
        };
        let r = String::from_str("LayerVia(").concat(hex_pair_text(self.via.x).as_str()).concat(",").concat(
            hex_pair_text(self.via.y).as_str(),
        ).concat(",").concat(layer).concat(")");
        proof {
            assert(r@ =~= self.spec_text());
        }
        r
    }

    /// Whether this node is the target pin: targets live on the strip layer only.
    pub fn is_target(&self, target_via: Via) -> (r: bool)
        ensures
            r == (!self.is_wire_layer && self.via == target_via),
    {
        if self.is_wire_layer {
            false
        } else {
            self.is_target_pin(target_via)
        }
    }

    fn is_target_pin(&self, target_via: Via) -> (r: bool)
        ensures
            r == (self.via == target_via),
    {
        self.via == target_via
    }
}

/// A node with the cumulative cost at which the search reached it.
#[derive(Clone, Copy, PartialEq, Eq, Structural, Debug)]
pub struct LayerCostVia {
    pub layer_via: LayerVia,
    pub cost: usize,
}

/// The order in which the search takes entries from its frontier: by cost, then by
/// column, then by row, and the strip layer before the wire layer.
pub open spec fn comes_before(a: LayerCostVia, b: LayerCostVia) -> bool {
    if a.cost != b.cost {
        a.cost < b.cost
    } else if a.layer_via.via.x != b.layer_via.via.x {
        a.layer_via.via.x < b.layer_via.via.x
    } else if a.layer_via.via.y != b.layer_via.via.y {
        a.layer_via.via.y < b.layer_via.via.y
    } else {
        !a.layer_via.is_wire_layer && b.layer_via.is_wire_layer
    }
}

impl LayerCostVia {
    pub fn new() -> (r: Self)
        ensures
            r.layer_via == (LayerVia { via: Via { x: 0, y: 0 }, is_wire_layer: false }),
            r.cost == 0,
    {
        Self { layer_via: LayerVia::new(), cost: 0 }
    }

    pub fn from_layer_via(layer_via: LayerVia, cost: usize) -> (r: Self)
        ensures
            r.layer_via == layer_via,
            r.cost == cost,
    {
        Self { layer_via, cost }
    }

    pub fn from_values(x: usize, y: usize, is_wire_layer: bool, cost: usize) -> (r: Self)
        ensures
            r.layer_via == (LayerVia { via: Via { x, y }, is_wire_layer }),
            r.cost == cost,
    {
        Self { layer_via: LayerVia::from_via(Via::new(x, y), is_wire_layer), cost }
    }

    /// The column and the row as text.
    pub fn str(&self) -> (r: String)
        ensures
            r@ == digits_of(self.layer_via.via.x as nat) + seq![',', ' '] + digits_of(
                self.layer_via.via.y as nat,
            ),
    {
        proof {
            reveal_strlit(", ");
        }
        let r = number_text(self.layer_via.via.x).concat(", ").concat(number_text(self.layer_via.via.y).as_str());
        proof {
            assert(r@ =~= digits_of(self.layer_via.via.x as nat) + seq![',', ' '] + digits_of(
                self.layer_via.via.y as nat,
            ));
        }
        r
    }

    /// Whether `self` leaves the frontier strictly before `other`.
    pub fn is_before(&self, other: &Self) -> (r: bool)
        ensures
            r == comes_before(*self, *other),
    {
        if self.cost != other.cost {
            self.cost < other.cost
        } else if self.layer_via.via.x != other.layer_via.via.x {
            self.layer_via.via.x < other.layer_via.via.x
        } else if self.layer_via.via.y != other.layer_via.via.y {
            self.layer_via.via.y < other.layer_via.via.y
        } else {
            !self.layer_via.is_wire_layer && other.layer_via.is_wire_layer
        }
    }
}

/// The two ends of a requested connection.
#[derive(Clone, Copy, PartialEq, Eq, Structural, Debug)]
pub struct StartEndVia {
    pub start: Via,
    pub end: Via,
}

impl StartEndVia {
    pub fn new(start: Via, end: Via) -> (r: Self)
        ensures
            r.start == start,
            r.end == end,
    {
        Self { start, end }
    }
}

/// One straight section of a route: a run on a single layer from `start` to `end`.
#[derive(Clone, Copy, PartialEq, Eq, Structural, Debug)]
pub struct LayerStartEndVia {
    pub start: LayerVia,
    pub end: LayerVia,
}

impl LayerStartEndVia {
    pub fn new() -> (r: Self)
        ensures
            r.start == (LayerVia { via: Via { x: 0, y: 0 }, is_wire_layer: false }),
            r.end == r.start,
    {
        Self { start: LayerVia::new(), end: LayerVia::new() }
    }

    pub fn from_layer_vias(start: LayerVia, end: LayerVia) -> (r: Self)
        ensures
            r.start == start,
            r.end == end,
    {
        Self { start, end }
    }
}

/// What the router records for one cell of the wire layer.
#[derive(Clone, Copy, PartialEq, Eq, Structural, Debug)]
pub struct WireLayerVia {
    /// No new jumper may pass over this cell.
    pub is_wire_side_blocked: bool,
    /// The far end of the committed jumper that ends here, if one does.
    pub wire_to_via: ValidVia,
}

impl WireLayerVia {
    pub fn new() -> (r: Self)
        ensures
            !r.is_wire_side_blocked,
            !r.wire_to_via.is_valid,
            r.wire_to_via.via == (Via { x: usize::MAX, y: usize::MAX }),
    {
        Self { is_wire_side_blocked: false, wire_to_via: ValidVia::new() }
    }
}

/// The costs at which the search has reached the two nodes of one via; `usize::MAX`
/// stands for "not reached".
#[derive(Clone, Copy, PartialEq, Eq, Structural, Debug)]
pub struct CostVia {
    pub wire_cost: usize,
    pub strip_cost: usize,
}

impl CostVia {
    pub fn new() -> (r: Self)
        ensures
            r.wire_cost == usize::MAX,
            r.strip_cost == usize::MAX,
    {
        Self { wire_cost: usize::MAX, strip_cost: usize::MAX }
    }
}

} // verus!
