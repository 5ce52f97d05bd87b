//! Electrical equivalence classes of vias.
//!
//! Every cell of the board carries the number of the class it belongs to, or [`NO_SET`].
//! Classes only grow: connecting two vias merges their classes, and nothing ever splits
//! one.

use crate::board::Board;
use crate::via::{LayerVia, Via};
use vstd::prelude::*;

verus! {

/// The mark of a cell that belongs to no class.
pub const NO_SET: usize = usize::MAX;

/// The per-cell class numbers after `ia` and `ib` have been connected, where `n` classes
/// existed before. Two cells without a class found class `n`; a cell without a class joins
/// the other's; of two classes the one of `ia` absorbs the one of `ib`.
pub open spec fn connect_idx(s: Seq<usize>, n: int, ia: int, ib: int) -> Seq<usize> {
    let ca = s[ia];
    let cb = s[ib];
    if ca == NO_SET && cb == NO_SET {
        s.update(ia, n as usize).update(ib, n as usize)
    } else if cb == NO_SET {
        s.update(ib, ca)
    } else if ca == NO_SET {
        s.update(ia, cb)
    } else {
        Seq::new(s.len(), |i: int| if s[i] == cb { ca } else { s[i] })
    }
}

/// The number of classes after `ia` and `ib` have been connected.
pub open spec fn connect_count(s: Seq<usize>, n: int, ia: int, ib: int) -> int {
    if s[ia] == NO_SET && s[ib] == NO_SET { n + 1 } else { n }
}

/// Whether cells `i` and `j` carry the same class.
pub open spec fn same_class(s: Seq<usize>, i: int, j: int) -> bool {
    s[i] == s[j] && s[i] != NO_SET
}

/// The per-cell class numbers and the class count after the origin of `route` has been
/// connected, in turn, to each strip-layer step among `route[1..upto]`.
pub open spec fn connect_route_idx(
    board: Board,
    s: Seq<usize>,
    n: int,
    route: Seq<LayerVia>,
    upto: int,
) -> (Seq<usize>, int)
    decreases upto,
{
    if upto <= 1 {
        (s, n)
    } else {
        let (s1, n1) = connect_route_idx(board, s, n, route, upto - 1);
        let c = route[upto - 1];
        if c.is_wire_layer {
            (s1, n1)
        } else {
            let ia = board.spec_idx(route[0].via);
            let ib = board.spec_idx(c.via);
            (connect_idx(s1, n1, ia, ib), connect_count(s1, n1, ia, ib))
        }
    }
}

/// The classes of one board.
#[derive(Debug)]
pub struct Nets {
    /// For each cell, by flat index, the number of its class or [`NO_SET`].
    pub set_idx_vec: Vec<usize>,
    /// For each class, its members. An absorbed class stays in place, empty.
    pub via_set_vec: Vec<Vec<Via>>,
}

impl Nets {
    /// The class number of `v`, or [`NO_SET`].
    pub open spec fn class_of(&self, board: Board, v: Via) -> usize {
        self.set_idx_vec@[board.spec_idx(v)]
    }

    /// Whether `v` belongs to a class.
    pub open spec fn has(&self, board: Board, v: Via) -> bool {
        self.class_of(board, v) != NO_SET
    }

    /// Whether `u` and `v` belong to the same class.
    pub open spec fn connected(&self, board: Board, u: Via, v: Via) -> bool {
        self.class_of(board, u) == self.class_of(board, v) && self.class_of(board, u) != NO_SET
    }

    /// Whether connecting `a` and `b` draws `x` into their common class.
    pub open spec fn joins(&self, board: Board, a: Via, b: Via, x: Via) -> bool {
        x == a || x == b || self.connected(board, x, a) || self.connected(board, x, b)
    }

    /// Every class number in use names a class.
    pub open spec fn idx_in_range(&self) -> bool {
        forall|i: int|
            0 <= i < self.set_idx_vec@.len() ==> (#[trigger] self.set_idx_vec@[i]) == NO_SET
                || self.set_idx_vec@[i] < self.via_set_vec@.len()
    }

    /// Every member of class `k` lies on the board and carries the number `k`.
    pub open spec fn members_carry(&self, board: Board, k: int) -> bool {
        forall|m: int|
            0 <= m < self.via_set_vec@[k]@.len() ==> {
                let v = #[trigger] self.via_set_vec@[k]@[m];
                board.contains(v) && self.class_of(board, v) == k
            }
    }

    /// Every cell that carries a class number is listed among the members of that class.
    pub open spec fn cells_listed(&self, board: Board) -> bool {
        forall|v: Via|
            board.contains(v) && (#[trigger] self.class_of(board, v)) != NO_SET
                ==> self.via_set_vec@[self.class_of(board, v) as int]@.contains(v)
    }

    /// The two tables describe the same classes of vias of `board`: a cell carries the
    /// number `k` if and only if the via is listed in class `k`.
    pub open spec fn wf(&self, board: Board) -> bool {
        &&& board.wf()
        &&& self.set_idx_vec@.len() == board.spec_size()
        &&& self.via_set_vec@.len() <= usize::MAX
        &&& self.idx_in_range()
        &&& forall|k: int| 0 <= k < self.via_set_vec@.len() ==> #[trigger] self.members_carry(board, k)
        &&& self.cells_listed(board)
    }

    /// Nets for `board` in which no via belongs to any class.
    pub fn new(board: Board) -> (nets: Self)
        requires
            board.wf(),
        ensures
            nets.wf(board),
            nets.via_set_vec@.len() == 0,
            forall|i: int| 0 <= i < nets.set_idx_vec@.len() ==> nets.set_idx_vec@[i] == NO_SET,
            forall|v: Via| board.contains(v) ==> !nets.has(board, v),
    {
        let n = board.size();
        let mut set_idx_vec: Vec<usize> = Vec::new();
        let mut i: usize = 0;
        while i < n
            invariant
                i <= n,
                set_idx_vec@.len() == i,
                forall|j: int| 0 <= j < i ==> set_idx_vec@[j] == NO_SET,
            decreases n - i,
        {
            set_idx_vec.push(NO_SET);
            i += 1;
        }
        let nets = Self { set_idx_vec, via_set_vec: Vec::new() };
        proof {
            assert forall|v: Via| board.contains(v) implies !nets.has(board, v) by {
                board.lemma_idx(v);
            }
        }
        nets
    }

    /// The class number of `via`, or [`NO_SET`].
    pub fn get_via_set_idx(&self, board: Board, via: Via) -> (k: usize)
        requires
            self.wf(board),
            board.contains(via),
        ensures
            k == self.class_of(board, via),
            k == NO_SET || k < self.via_set_vec@.len(),
    {
        let trace_idx = board.idx(via);
        self.set_idx_vec[trace_idx]
    }

    /// Whether `current_via` and `target_via` belong to the same class.
    pub fn is_connected(&self, board: Board, current_via: Via, target_via: Via) -> (r: bool)
        requires
            self.wf(board),
            board.contains(current_via),
            board.contains(target_via),
        ensures
            r == self.connected(board, current_via, target_via),
    {
        let via_set_idx = self.set_idx_vec[board.idx(current_via)];
        if via_set_idx == NO_SET {
            return false;
        }
        self.set_idx_vec[board.idx(target_via)] == via_set_idx
    }

    /// Whether `via` belongs to a class.
    pub fn has_connection(&self, board: Board, via: Via) -> (r: bool)
        requires
            self.wf(board),
            board.contains(via),
        ensures
            r == self.has(board, via),
    {
        let via_set_idx = self.set_idx_vec[board.idx(via)];
        via_set_idx != NO_SET
    }

    /// The members of the class of `via`.
    pub fn get_via_set(&self, board: Board, via: Via) -> (set: &Vec<Via>)
        requires
            self.wf(board),
            board.contains(via),
            self.has(board, via),
        ensures
            *set == self.via_set_vec@[self.class_of(board, via) as int],
            set@.contains(via),
            forall|m: int| 0 <= m < set@.len() ==> self.connected(board, #[trigger] set@[m], via),
            forall|v: Via| board.contains(v) && self.connected(board, v, via) ==> set@.contains(v),
    {
        let trace_idx = board.idx(via);
        let set_idx = self.set_idx_vec[trace_idx];
        proof {
            assert(self.members_carry(board, set_idx as int));
        }
        &self.via_set_vec[set_idx]
    }

    /// Adds an empty class and returns its number.
    fn create_via_set(&mut self) -> (k: usize)
        ensures
            k == old(self).via_set_vec@.len(),
            k != NO_SET,
            final(self).set_idx_vec == old(self).set_idx_vec,
            final(self).via_set_vec@ == old(self).via_set_vec@.push(final(self).via_set_vec@[k as int]),
            final(self).via_set_vec@[k as int]@.len() == 0,
    {
        self.via_set_vec.push(Vec::new());
        self.via_set_vec.len() - 1
    }

    /// Puts `via`, which has no class yet, into class `k`.
    fn enlist(&mut self, board: Board, k: usize, via: Via)
        requires
            old(self).wf(board),
            board.contains(via),
            k < old(self).via_set_vec@.len(),
            !old(self).has(board, via),
        ensures
            final(self).wf(board),
            final(self).set_idx_vec@ == old(self).set_idx_vec@.update(board.spec_idx(via), k),
            final(self).via_set_vec@.len() == old(self).via_set_vec@.len(),
    {
        let i = board.idx(via);
        let ghost before = *self;
        let mut members: Vec<Via> = Vec::new();
        std::mem::swap(&mut members, &mut self.via_set_vec[k]);
        members.push(via);
        std::mem::swap(&mut members, &mut self.via_set_vec[k]);
        self.set_idx_vec[i] = k;
        proof {
            let after = *self;
            board.lemma_idx(via);
            assert(after.via_set_vec@.len() == before.via_set_vec@.len());
            assert(after.via_set_vec@[k as int]@ == before.via_set_vec@[k as int]@.push(via));
            assert forall|c: int| 0 <= c < after.via_set_vec@.len() && c != k implies after.via_set_vec@[c]
                == before.via_set_vec@[c] by {}
            assert forall|c: int| 0 <= c < after.via_set_vec@.len() implies #[trigger] after.members_carry(
                board,
                c,
            ) by {
                assert(before.members_carry(board, c));
                assert forall|m: int| 0 <= m < after.via_set_vec@[c]@.len() implies ({
                    let v = #[trigger] after.via_set_vec@[c]@[m];
                    board.contains(v) && after.class_of(board, v) == c
                }) by {
                    let v = after.via_set_vec@[c]@[m];
                    if c == k && m == before.via_set_vec@[k as int]@.len() {
                        assert(v == via);
                    } else {
                        assert(v == before.via_set_vec@[c]@[m]);
                        board.lemma_idx(v);
                        if board.spec_idx(v) == board.spec_idx(via) {
                            board.lemma_idx_injective(v, via);
                        }
                    }
                }
            }
            assert forall|v: Via|
                board.contains(v) && (#[trigger] after.class_of(board, v)) != NO_SET implies after.via_set_vec@[after.class_of(
                board,
                v,
            ) as int]@.contains(v) by {
                board.lemma_idx(v);
                if board.spec_idx(v) == board.spec_idx(via) {
                    board.lemma_idx_injective(v, via);
                    assert(after.via_set_vec@[k as int]@[before.via_set_vec@[k as int]@.len() as int] == via);
                } else {
                    let c = before.class_of(board, v);
                    assert(c == after.class_of(board, v));
                    assert(before.via_set_vec@[c as int]@.contains(v));
                    let m = choose|m: int|
                        0 <= m < before.via_set_vec@[c as int]@.len() && before.via_set_vec@[c as int]@[m]
                            == v;
                    assert(after.via_set_vec@[c as int]@[m] == v);
                }
            }
        }
    }

    /// Moves every member of class `k` into class `j` and leaves class `k` empty.
    fn absorb(&mut self, board: Board, j: usize, k: usize)
        requires
            old(self).wf(board),
            j < old(self).via_set_vec@.len(),
            k < old(self).via_set_vec@.len(),
            j != k,
        ensures
            final(self).wf(board),
            final(self).via_set_vec@.len() == old(self).via_set_vec@.len(),
            final(self).set_idx_vec@ == Seq::new(
                old(self).set_idx_vec@.len(),
                |i: int| if old(self).set_idx_vec@[i] == k { j } else { old(self).set_idx_vec@[i] },
            ),
    {
        let ghost before = *self;
        let mut moved: Vec<Via> = Vec::new();
        std::mem::swap(&mut moved, &mut self.via_set_vec[k]);
        let mut target: Vec<Via> = Vec::new();
        std::mem::swap(&mut target, &mut self.via_set_vec[j]);
        proof {
            assert(before.members_carry(board, k as int));
            assert(before.members_carry(board, j as int));
        }
        let n = moved.len();
        let mut t: usize = 0;
        while t < n
            invariant
                t <= n,
                n == moved@.len(),
                board.wf(),
                j != k,
                j < before.via_set_vec@.len(),
                k < before.via_set_vec@.len(),
                before.wf(board),
                moved@ == before.via_set_vec@[k as int]@,
                self.set_idx_vec@.len() == before.set_idx_vec@.len(),
                self.via_set_vec@.len() == before.via_set_vec@.len(),
                self.via_set_vec@[k as int]@.len() == 0,
                self.via_set_vec@[j as int]@.len() == 0,
                forall|c: int|
                    0 <= c < self.via_set_vec@.len() && c != k && c != j ==> #[trigger] self.via_set_vec@[c]
                        == before.via_set_vec@[c],
                target@ == before.via_set_vec@[j as int]@ + moved@.subrange(0, t as int),
                forall|i: int|
                    0 <= i < self.set_idx_vec@.len() ==> (#[trigger] self.set_idx_vec@[i])
                        == before.set_idx_vec@[i] || (before.set_idx_vec@[i] == k
                        && self.set_idx_vec@[i] == j),
                forall|m: int|
                    0 <= m < t ==> self.set_idx_vec@[board.spec_idx(#[trigger] moved@[m])] == j,
            decreases n - t,
        {
            let v = moved[t];
            proof {
                assert(before.members_carry(board, k as int));
                assert(before.via_set_vec@[k as int]@[t as int] == v);
                board.lemma_idx(v);
            }
            let ghost prev_idx = self.set_idx_vec@;
            let i = board.idx(v);
            self.set_idx_vec[i] = j;
            target.push(v);
            proof {
                assert(target@ == before.via_set_vec@[j as int]@ + moved@.subrange(0, t as int + 1));
                assert forall|m: int| 0 <= m < t + 1 implies self.set_idx_vec@[board.spec_idx(
                    #[trigger] moved@[m],
                )] == j by {
                    assert(before.via_set_vec@[k as int]@[m] == moved@[m]);
                    board.lemma_idx(moved@[m]);
                    if m < t {
                        assert(prev_idx[board.spec_idx(moved@[m])] == j);
                    }
                }
            }
            t += 1;
        }
        std::mem::swap(&mut target, &mut self.via_set_vec[j]);
        proof {
            let after = *self;
            let goal = Seq::new(
                before.set_idx_vec@.len(),
                |i: int| if before.set_idx_vec@[i] == k { j } else { before.set_idx_vec@[i] },
            );
            assert(moved@.subrange(0, n as int) == moved@);
            assert forall|i: int| 0 <= i < after.set_idx_vec@.len() implies after.set_idx_vec@[i]
                == goal[i] by {
                if before.set_idx_vec@[i] == k {
                    board.lemma_via_at(i);
                    let v = board.spec_via_at(i);
                    assert(before.class_of(board, v) == k);
                    assert(before.cells_listed(board));
                    assert(before.via_set_vec@[k as int]@.contains(v));
                    let m = choose|m: int| 0 <= m < moved@.len() && moved@[m] == v;
                    assert(after.set_idx_vec@[board.spec_idx(moved@[m])] == j);
                }
            }
            assert(after.set_idx_vec@ =~= goal);
            assert forall|c: int| 0 <= c < after.via_set_vec@.len() implies #[trigger] after.members_carry(
                board,
                c,
            ) by {
                assert(before.members_carry(board, c));
                assert forall|m: int| 0 <= m < after.via_set_vec@[c]@.len() implies ({
                    let v = #[trigger] after.via_set_vec@[c]@[m];
                    board.contains(v) && after.class_of(board, v) == c
                }) by {
                    let v = after.via_set_vec@[c]@[m];
                    assert(before.members_carry(board, k as int));
                    assert(before.members_carry(board, j as int));
                    if c == j {
                        if m < before.via_set_vec@[j as int]@.len() {
                            assert(v == before.via_set_vec@[j as int]@[m]);
                            board.lemma_idx(v);
                        } else {
                            let m2 = m - before.via_set_vec@[j as int]@.len();
                            assert(v == moved@[m2]);
                            assert(v == before.via_set_vec@[k as int]@[m2]);
                            board.lemma_idx(v);
                        }
                    } else if c == k {
                    } else {
                        assert(after.via_set_vec@[c] == before.via_set_vec@[c]);
                        assert(v == before.via_set_vec@[c]@[m]);
                        board.lemma_idx(v);
                    }
                }
            }
            assert forall|v: Via|
                board.contains(v) && (#[trigger] after.class_of(board, v)) != NO_SET implies after.via_set_vec@[after.class_of(
                board,
                v,
            ) as int]@.contains(v) by {
                board.lemma_idx(v);
                let c = before.class_of(board, v);
                assert(before.via_set_vec@[c as int]@.contains(v));
                let m = choose|m: int|
                    0 <= m < before.via_set_vec@[c as int]@.len() && before.via_set_vec@[c as int]@[m]
                        == v;
                if c == k {
                    assert(after.via_set_vec@[j as int]@[before.via_set_vec@[j as int]@.len() + m] == v);
                } else if c == j {
                    assert(after.via_set_vec@[j as int]@[m] == v);
                } else {
                    assert(after.via_set_vec@[c as int]@[m] == v);
                }
            }
        }
    }

    /// Puts `via_a` and `via_b` into one class, merging the classes they were in.
    pub fn connect(&mut self, board: Board, via_a: Via, via_b: Via)
        requires
            old(self).wf(board),
            board.contains(via_a),
            board.contains(via_b),
        ensures
            final(self).wf(board),
            final(self).set_idx_vec@ == connect_idx(
                old(self).set_idx_vec@,
                old(self).via_set_vec@.len() as int,
                board.spec_idx(via_a),
                board.spec_idx(via_b),
            ),
            final(self).via_set_vec@.len() == connect_count(
                old(self).set_idx_vec@,
                old(self).via_set_vec@.len() as int,
                board.spec_idx(via_a),
                board.spec_idx(via_b),
            ),
            final(self).connected(board, via_a, via_b),
            forall|u: Via, v: Via|
                board.contains(u) && board.contains(v) ==> (#[trigger] final(self).connected(board, u, v)
                    <==> old(self).connected(board, u, v) || (old(self).joins(board, via_a, via_b, u)
                    && old(self).joins(board, via_a, via_b, v))),
            forall|v: Via|
                board.contains(v) ==> (#[trigger] final(self).has(board, v) <==> old(self).has(board, v)
                    || v == via_a || v == via_b),
    {
        let set_idx_a = self.get_via_set_idx(board, via_a);
        let set_idx_b = self.get_via_set_idx(board, via_b);
        let ghost before = *self;
        proof {
            board.lemma_idx(via_a);
            board.lemma_idx(via_b);
        }
        if set_idx_a == NO_SET && set_idx_b == NO_SET {
            let via_set_idx = self.create_via_set();
            proof {
                let mid = *self;
                assert forall|c: int| 0 <= c < mid.via_set_vec@.len() implies #[trigger] mid.members_carry(
                    board,
                    c,
                ) by {
                    if c < before.via_set_vec@.len() {
                        assert(before.members_carry(board, c));
                        assert(mid.via_set_vec@[c] == before.via_set_vec@[c]);
                    }
                }
                assert forall|v: Via|
                    board.contains(v) && (#[trigger] mid.class_of(board, v)) != NO_SET implies mid.via_set_vec@[mid.class_of(
                    board,
                    v,
                ) as int]@.contains(v) by {
                    board.lemma_idx(v);
                    assert(before.via_set_vec@[before.class_of(board, v) as int]@.contains(v));
                }
                assert(mid.wf(board));
            }
            self.enlist(board, via_set_idx, via_a);
            if via_a != via_b {
                proof {
                    if board.spec_idx(via_a) == board.spec_idx(via_b) {
                        board.lemma_idx_injective(via_a, via_b);
                    }
                }
                self.enlist(board, via_set_idx, via_b);
            }
            proof {
                assert(self.set_idx_vec@ =~= connect_idx(
                    before.set_idx_vec@,
                    before.via_set_vec@.len() as int,
                    board.spec_idx(via_a),
                    board.spec_idx(via_b),
                ));
            }
        } else if set_idx_b == NO_SET {
            self.enlist(board, set_idx_a, via_b);
        } else if set_idx_a == NO_SET {
            self.enlist(board, set_idx_b, via_a);
        } else if set_idx_a != set_idx_b {
            self.absorb(board, set_idx_a, set_idx_b);
        } else {
            proof {
                assert(self.set_idx_vec@ =~= connect_idx(
                    before.set_idx_vec@,
                    before.via_set_vec@.len() as int,
                    board.spec_idx(via_a),
                    board.spec_idx(via_b),
                ));
            }
        }
        proof {
            lemma_connect_idx(
                board,
                before.set_idx_vec@,
                before.via_set_vec@.len() as int,
                via_a,
                via_b,
            );
            let after = *self;
            assert forall|u: Via, v: Via| board.contains(u) && board.contains(v) implies (
            #[trigger] after.connected(board, u, v) <==> before.connected(board, u, v) || (before.joins(
                board,
                via_a,
                via_b,
                u,
            ) && before.joins(board, via_a, via_b, v))) by {
                board.lemma_idx(u);
                board.lemma_idx(v);
                if u != via_a && board.spec_idx(u) == board.spec_idx(via_a) {
                    board.lemma_idx_injective(u, via_a);
                }
                if u != via_b && board.spec_idx(u) == board.spec_idx(via_b) {
                    board.lemma_idx_injective(u, via_b);
                }
                if v != via_a && board.spec_idx(v) == board.spec_idx(via_a) {
                    board.lemma_idx_injective(v, via_a);
                }
                if v != via_b && board.spec_idx(v) == board.spec_idx(via_b) {
                    board.lemma_idx_injective(v, via_b);
                }
            }
            assert forall|v: Via| board.contains(v) implies (#[trigger] after.has(board, v)
                <==> before.has(board, v) || v == via_a || v == via_b) by {
                board.lemma_idx(v);
                if v != via_a && board.spec_idx(v) == board.spec_idx(via_a) {
                    board.lemma_idx_injective(v, via_a);
                }
                if v != via_b && board.spec_idx(v) == board.spec_idx(via_b) {
                    board.lemma_idx_injective(v, via_b);
                }
            }
        }
    }

    /// Makes `via` a member of a class: of its own new one if it had none.
    pub fn register_pin(&mut self, board: Board, via: Via)
        requires
            old(self).wf(board),
            board.contains(via),
        ensures
            final(self).wf(board),
            final(self).set_idx_vec@ == connect_idx(
                old(self).set_idx_vec@,
                old(self).via_set_vec@.len() as int,
                board.spec_idx(via),
                board.spec_idx(via),
            ),
            final(self).has(board, via),
            forall|u: Via, v: Via|
                board.contains(u) && board.contains(v) ==> (#[trigger] final(self).connected(board, u, v)
                    <==> old(self).connected(board, u, v) || (u == via && v == via)),
            forall|v: Via|
                board.contains(v) ==> (#[trigger] final(self).has(board, v) <==> old(self).has(board, v)
                    || v == via),
    {
        self.connect(board, via, via);
    }

    /// Connects the origin of a route to every later step of it that lies on the strip
    /// layer.
    pub fn connect_route(&mut self, board: Board, route_step_vec: &Vec<LayerVia>)
        requires
            old(self).wf(board),
            route_step_vec@.len() >= 2,
            forall|i: int| 0 <= i < route_step_vec@.len() ==> board.contains(#[trigger] route_step_vec@[i].via),
            !route_step_vec@[route_step_vec@.len() - 1].is_wire_layer,
        ensures
            final(self).wf(board),
            (final(self).set_idx_vec@, final(self).via_set_vec@.len() as int) == connect_route_idx(
                board,
                old(self).set_idx_vec@,
                old(self).via_set_vec@.len() as int,
                route_step_vec@,
                route_step_vec@.len() as int,
            ),
            final(self).connected(
                board,
                route_step_vec@[0].via,
                route_step_vec@[route_step_vec@.len() - 1].via,
            ),
            forall|i: int|
                1 <= i < route_step_vec@.len() && !route_step_vec@[i].is_wire_layer ==> final(self).connected(board, route_step_vec@[0].via, #[trigger] route_step_vec@[i].via),
            forall|u: Via, v: Via|
                board.contains(u) && board.contains(v) && old(self).connected(board, u, v)
                    ==> #[trigger] final(self).connected(board, u, v),
            forall|v: Via| board.contains(v) && old(self).has(board, v) ==> #[trigger] final(self).has(board, v),
    {
        let origin = route_step_vec[0].via;
        let n = route_step_vec.len();
        let ghost before = *self;
        let mut i: usize = 1;
        while i < n
            invariant
                1 <= i <= n,
                n == route_step_vec@.len(),
                origin == route_step_vec@[0].via,
                self.wf(board),
                forall|i: int|
                    0 <= i < route_step_vec@.len() ==> board.contains(#[trigger] route_step_vec@[i].via),
                (self.set_idx_vec@, self.via_set_vec@.len() as int) == connect_route_idx(
                    board,
                    before.set_idx_vec@,
                    before.via_set_vec@.len() as int,
                    route_step_vec@,
                    i as int,
                ),
                forall|m: int|
                    1 <= m < i && !route_step_vec@[m].is_wire_layer ==> self.connected(
                        board,
                        origin,
                        #[trigger] route_step_vec@[m].via,
                    ),
                forall|u: Via, v: Via|
                    board.contains(u) && board.contains(v) && before.connected(board, u, v)
                        ==> #[trigger] self.connected(board, u, v),
                forall|v: Via| board.contains(v) && before.has(board, v) ==> #[trigger] self.has(board, v),
            decreases n - i,
        {
            let c = route_step_vec[i];
            if !c.is_wire_layer {
                let ghost mid = *self;
                self.connect(board, origin, c.via);
                proof {
                    assert forall|m: int|
                        1 <= m < i + 1 && !route_step_vec@[m].is_wire_layer implies self.connected(
                        board,
                        origin,
                        #[trigger] route_step_vec@[m].via,
                    ) by {
                        if m < i {
                            assert(mid.connected(board, origin, route_step_vec@[m].via));
                        }
                    }
                    assert forall|u: Via, v: Via|
                        board.contains(u) && board.contains(v) && before.connected(
                            board,
                            u,
                            v,
                        ) implies #[trigger] self.connected(board, u, v) by {
                        assert(mid.connected(board, u, v));
                    }
                    assert forall|v: Via| board.contains(v) && before.has(board, v) implies #[trigger] self.has(
                        board,
                        v,
                    ) by {
                        assert(mid.has(board, v));
                    }
                }
            }
            i += 1;
        }
    }
}

/// What [`connect_idx`] means for the classes: the cells that were in the class of `a` or of
/// `b`, and `a` and `b` themselves, end up in one class, and every other pair of cells is in
/// one class exactly if it was before.
pub proof fn lemma_connect_idx(board: Board, s: Seq<usize>, n: int, a: Via, b: Via)
    requires
        board.contains(a),
        board.contains(b),
        s.len() == board.spec_size(),
        0 <= n <= usize::MAX,
        !same_class(s, board.spec_idx(a), board.spec_idx(a)) && !same_class(
            s,
            board.spec_idx(b),
            board.spec_idx(b),
        ) ==> n < usize::MAX,
        forall|i: int| 0 <= i < s.len() ==> (#[trigger] s[i]) == NO_SET || s[i] < n,
    ensures
        ({
            let ia = board.spec_idx(a);
            let ib = board.spec_idx(b);
            let r = connect_idx(s, n, ia, ib);
            &&& r.len() == s.len()
            &&& same_class(r, ia, ib)
            &&& forall|i: int, j: int|
                0 <= i < s.len() && 0 <= j < s.len() ==> (#[trigger] same_class(r, i, j) <==> same_class(
                    s,
                    i,
                    j,
                ) || ((i == ia || i == ib || same_class(s, i, ia) || same_class(s, i, ib)) && (j == ia
                    || j == ib || same_class(s, j, ia) || same_class(s, j, ib))))
            &&& forall|i: int|
                0 <= i < s.len() ==> ((#[trigger] r[i]) != NO_SET <==> s[i] != NO_SET || i == ia || i
                    == ib)
            &&& forall|i: int|
                0 <= i < r.len() ==> (#[trigger] r[i]) == NO_SET || r[i] < connect_count(s, n, ia, ib)
        }),
{
    board.lemma_idx(a);
    board.lemma_idx(b);
}

/// Connecting `a` with `b` and connecting `b` with `a` put the same cells into the same
/// classes.
pub proof fn lemma_connect_commutes(board: Board, s: Seq<usize>, n: int, a: Via, b: Via)
    requires
        board.contains(a),
        board.contains(b),
        s.len() == board.spec_size(),
        0 <= n < usize::MAX,
        forall|i: int| 0 <= i < s.len() ==> (#[trigger] s[i]) == NO_SET || s[i] < n,
    ensures
        ({
            let ia = board.spec_idx(a);
            let ib = board.spec_idx(b);
            forall|i: int, j: int|
                0 <= i < s.len() && 0 <= j < s.len() ==> (same_class(connect_idx(s, n, ia, ib), i, j)
                    <==> same_class(connect_idx(s, n, ib, ia), i, j))
        }),
{
    lemma_connect_idx(board, s, n, a, b);
    lemma_connect_idx(board, s, n, b, a);
    let ia = board.spec_idx(a);
    let ib = board.spec_idx(b);
    let r1 = connect_idx(s, n, ia, ib);
    let r2 = connect_idx(s, n, ib, ia);
    assert forall|i: int, j: int| 0 <= i < s.len() && 0 <= j < s.len() implies (same_class(r1, i, j)
        <==> same_class(r2, i, j)) by {
        assert(same_class(r1, i, j) <==> same_class(s, i, j) || ((i == ia || i == ib || same_class(
            s,
            i,
            ia,
        ) || same_class(s, i, ib)) && (j == ia || j == ib || same_class(s, j, ia) || same_class(
            s,
            j,
            ib,
        ))));
        assert(same_class(r2, i, j) <==> same_class(s, i, j) || ((i == ib || i == ia || same_class(
            s,
            i,
            ib,
        ) || same_class(s, i, ia)) && (j == ib || j == ia || same_class(s, j, ib) || same_class(
            s,
            j,
            ia,
        ))));
    }
}

/// Connecting `a` with `b` a second time changes nothing.
pub proof fn lemma_connect_idempotent(board: Board, s: Seq<usize>, n: int, a: Via, b: Via)
    requires
        board.contains(a),
        board.contains(b),
        s.len() == board.spec_size(),
        0 <= n < usize::MAX,
        forall|i: int| 0 <= i < s.len() ==> (#[trigger] s[i]) == NO_SET || s[i] < n,
    ensures
        ({
            let ia = board.spec_idx(a);
            let ib = board.spec_idx(b);
            let once = connect_idx(s, n, ia, ib);
            connect_idx(once, connect_count(s, n, ia, ib), ia, ib) == once
        }),
{
    board.lemma_idx(a);
    board.lemma_idx(b);
    let ia = board.spec_idx(a);
    let ib = board.spec_idx(b);
    let once = connect_idx(s, n, ia, ib);
    assert(connect_idx(once, connect_count(s, n, ia, ib), ia, ib) =~= once);
}

} // verus!
