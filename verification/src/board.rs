//! Board dimensions and the flat index of a via.

use crate::via::Via;
use vstd::prelude::*;

verus! {

/// A board of `w` columns and `h` rows.
#[derive(Clone, Copy, PartialEq, Eq, Structural, Debug)]
pub struct Board {
    pub w: usize,
    pub h: usize,
}

impl Board {
    /// The number of vias on the board, as a mathematical integer.
    pub open spec fn spec_size(&self) -> int {
        self.w * self.h
    }

    /// The number of vias fits the machine word.
    pub open spec fn wf(&self) -> bool {
        self.spec_size() <= usize::MAX
    }

    /// Whether `via` lies on the board.
    pub open spec fn contains(&self, via: Via) -> bool {
        via.x < self.w && via.y < self.h
    }

    /// The flat index of `via`: rows follow one another.
    pub open spec fn spec_idx(&self, via: Via) -> int {
        via.y * self.w + via.x
    }

    /// The via at flat index `i`.
    pub open spec fn spec_via_at(&self, i: int) -> Via {
        Via { x: (i % (self.w as int)) as usize, y: (i / (self.w as int)) as usize }
    }

    /// Two vias of the board with the same flat index are the same via, and every
    /// flat index is below the size.
    pub proof fn lemma_idx(&self, a: Via)
        requires
            self.contains(a),
        ensures
            0 <= self.spec_idx(a) < self.spec_size(),
            self.spec_via_at(self.spec_idx(a)) == a,
    {
        let w = self.w as int;
        let h = self.h as int;
        let x = a.x as int;
        let y = a.y as int;
        assert(y * w + x < w * h) by (nonlinear_arith)
            requires
                0 <= x < w,
                0 <= y < h,
        ;
        assert(0 <= y * w + x) by (nonlinear_arith)
            requires
                0 <= x < w,
                0 <= y < h,
        ;
        vstd::arithmetic::div_mod::lemma_fundamental_div_mod_converse(y * w + x, w, y, x);
    }

    /// Distinct vias of the board have distinct flat indices.
    pub proof fn lemma_idx_injective(&self, a: Via, b: Via)
        requires
            self.contains(a),
            self.contains(b),
            self.spec_idx(a) == self.spec_idx(b),
        ensures
            a == b,
    {
        self.lemma_idx(a);
        self.lemma_idx(b);
    }

    /// Every flat index below the size is the index of a via of the board.
    pub proof fn lemma_via_at(&self, i: int)
        requires
            0 <= i < self.spec_size(),
        ensures
            self.contains(self.spec_via_at(i)),
            self.spec_idx(self.spec_via_at(i)) == i,
    {
        let w = self.w as int;
        let h = self.h as int;
        assert(w > 0) by (nonlinear_arith)
            requires
                0 <= i < w * h,
                0 <= w,
                0 <= h,
        ;
        vstd::arithmetic::div_mod::lemma_fundamental_div_mod(i, w);
        vstd::arithmetic::div_mod::lemma_mod_bound(i, w);
        vstd::arithmetic::div_mod::lemma_div_pos_is_pos(i, w);
        let q = i / w;
        let r = i % w;
        assert(q < h) by (nonlinear_arith)
            requires
                i == w * q + r,
                0 <= r < w,
                i < w * h,
                0 <= q,
        ;
        assert(q * w + r == w * q + r) by (nonlinear_arith);
    }

    pub fn new(w: usize, h: usize) -> (b: Self)
        ensures
            b.w == w,
            b.h == h,
    {
        Self { w, h }
    }

    /// The number of vias on the board.
    pub fn size(&self) -> (n: usize)
        requires
            self.wf(),
        ensures
            n == self.spec_size(),
    {
        self.w * self.h
    }

    /// The flat index of a via of the board.
    pub fn idx(&self, via: Via) -> (i: usize)
        requires
            self.wf(),
            self.contains(via),
        ensures
            i == self.spec_idx(via),
            i < self.spec_size(),
    {
        proof {
            self.lemma_idx(via);
            assert(via.y * self.w <= self.spec_idx(via)) by (nonlinear_arith)
                requires
                    self.spec_idx(via) == via.y * self.w + via.x,
            ;
        }
        via.y * self.w + via.x
    }

    /// Whether `via` lies on the board.
    pub fn has(&self, via: Via) -> (r: bool)
        ensures
            r == self.contains(via),
    {
        via.x < self.w && via.y < self.h
    }
}

} // verus!
