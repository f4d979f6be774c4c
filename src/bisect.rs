//! Range bisection along one axis.
//!
//! An axis with bound `b` spans `[-b, b]`. After `n` halvings a value lies in
//! one of `2^n` equal cells, numbered from the low end; each halving records
//! one bit, `true` when the value lies in the upper half.
use vstd::arithmetic::div_mod::lemma_fundamental_div_mod_converse;
use vstd::arithmetic::power2::{lemma2_to64, lemma_pow2_adds, lemma_pow2_pos, lemma_pow2_unfold, pow2};
use vstd::prelude::*;

verus! {

/// Number of halvings made on each axis.
pub const STEPS: usize = 32;

/// The factor by which the axis is stretched so that every bound reached in
/// `STEPS` halvings is an integer.
pub const SCALE: i128 = 0x1_0000_0000;

/// Index of the cell, among `2^n` equal cells of `[0, w]`, that holds the
/// offset `x` (`0 <= x <= w`). The upper end `w` belongs to the last cell.
pub open spec fn cell(x: int, w: int, n: nat) -> int {
    if x >= w {
        pow2(n) - 1
    } else {
        x * pow2(n) / w
    }
}

/// Bit `i` of the bisection of `v` on the axis `[-bound, bound]`: whether
/// `v` lies in the upper half of its cell after `i` halvings.
pub open spec fn axis_bit(v: int, bound: int, i: int) -> bool {
    cell(v + bound, 2 * bound, (i + 1) as nat) % 2 == 1
}

/// The first `n` bits of the bisection of `v` on the axis `[-bound, bound]`.
pub open spec fn axis_bits(v: int, bound: int, n: nat) -> Seq<bool> {
    Seq::new(n, |i: int| axis_bit(v, bound, i))
}

/// Each halving doubles the cell index and adds the bit that it records.
pub proof fn lemma_cell_step(x: int, w: int, j: nat)
    requires
        0 < w,
        0 <= x <= w,
    ensures
        0 <= cell(x, w, j) < pow2(j),
        cell(x, w, j + 1) == 2 * cell(x, w, j) + (if x * pow2(j + 1) >= (2 * cell(x, w, j) + 1) * w {
            1int
        } else {
            0int
        }),
{
    let p = pow2(j) as int;
    lemma_pow2_pos(j);
    lemma_pow2_unfold(j + 1);
    assert(pow2(j + 1) == 2 * p);
    if x < w {
        let q = x * p / w;
        let r = x * p % w;
        assert(x * p == q * w + r && 0 <= r < w) by (nonlinear_arith)
            requires
                0 <= x,
                0 < w,
                q == x * p / w,
                r == x * p % w,
        ;
        assert(0 <= q < p) by (nonlinear_arith)
            requires
                x * p == q * w + r,
                0 <= r < w,
                0 <= x < w,
                0 < p,
        ;
        if 2 * r >= w {
            assert(x * (2 * p) == (2 * q + 1) * w + (2 * r - w)) by (nonlinear_arith)
                requires
                    x * p == q * w + r,
            ;
            lemma_fundamental_div_mod_converse(x * (2 * p), w, 2 * q + 1, 2 * r - w);
            assert(x * (2 * p) >= (2 * q + 1) * w);
        } else {
            assert(x * (2 * p) == (2 * q) * w + 2 * r) by (nonlinear_arith)
                requires
                    x * p == q * w + r,
            ;
            lemma_fundamental_div_mod_converse(x * (2 * p), w, 2 * q, 2 * r);
            assert(x * (2 * p) < (2 * q + 1) * w) by (nonlinear_arith)
                requires
                    x * (2 * p) == (2 * q) * w + 2 * r,
                    2 * r < w,
            ;
        }
    } else {
        assert(x * (2 * p) >= (2 * (p - 1) + 1) * w) by (nonlinear_arith)
            requires
                x == w,
                0 < w,
                0 < p,
        ;
    }
}

/// A range `[low, high]` with its midpoint `mid`.
pub struct RangeTriple {
    pub low: i128,
    pub mid: i128,
    pub high: i128,
}

impl RangeTriple {
    /// `mid` lies exactly halfway between `low` and `high`.
    pub open spec fn wf(&self) -> bool {
        self.low <= self.mid <= self.high && self.mid - self.low == self.high - self.mid
    }

    /// Halves the range, keeping the half that holds `x`: the upper half when
    /// `x >= mid`, which is the bit returned, else the lower half.
    pub fn narrow(&mut self, x: i128) -> (upper: bool)
        requires
            old(self).wf(),
            (old(self).high - old(self).low) % 4 == 0,
            -0x1_0000_0000_0000_0000_0000 <= old(self).low,
            old(self).high <= 0x1_0000_0000_0000_0000_0000,
        ensures
            upper == (x >= old(self).mid),
            upper ==> final(self).low == old(self).mid && final(self).high == old(self).high,
            !upper ==> final(self).low == old(self).low && final(self).high == old(self).mid,
            final(self).wf(),
            final(self).high - final(self).low == (old(self).high - old(self).low) / 2,
    {
        if x >= self.mid {
            self.low = self.mid;
            self.mid = self.mid + (self.high - self.mid) / 2;
            true
        } else {
            self.high = self.mid;
            self.mid = self.low + (self.mid - self.low) / 2;
            false
        }
    }
}

/// Bisects the axis `[-bound, bound]` `STEPS` times around `value`,
/// returning the bit of each step.
pub fn bisect_axis(value: i32, bound: i32) -> (bits: Vec<bool>)
    requires
        0 < bound,
        -bound <= value <= bound,
    ensures
        bits@ == axis_bits(value as int, bound as int, STEPS as nat),
{
    let ghost w: int = 2 * bound;
    let ghost xo: int = value + bound;
    let x: i128 = value as i128 * SCALE;
    let b: i128 = bound as i128;
    let mut range = RangeTriple { low: -b * SCALE, mid: 0, high: b * SCALE };
    let mut bits: Vec<bool> = Vec::new();
    let mut j: usize = 0;
    proof {
        lemma2_to64();
        assert(cell(xo, w, 0) == 0) by (nonlinear_arith)
            requires
                0 <= xo <= w,
                0 < w,
                pow2(0) == 1,
        ;
        assert(bits@ =~= axis_bits(value as int, bound as int, 0));
        assert(pow2((STEPS - j) as nat) == SCALE);
        assert(range.high - range.low == w * SCALE);
        assert(cell(xo, w, j as nat) * w * pow2((STEPS - j) as nat) == 0);
    }
    while j < STEPS
        invariant
            j <= STEPS,
            0 < w,
            w == 2 * bound,
            0 <= xo <= w,
            xo == value + bound,
            x == value * SCALE,
            range.wf(),
            -b * SCALE <= range.low,
            range.high <= b * SCALE,
            b == bound,
            range.high - range.low == w * pow2((STEPS - j) as nat),
            range.low == -b * SCALE + cell(xo, w, j as nat) * w * pow2((STEPS - j) as nat),
            bits@ == axis_bits(value as int, bound as int, j as nat),
        decreases STEPS - j,
    {
        let ghost k = cell(xo, w, j as nat);
        let ghost u = pow2((31 - j) as nat) as int;
        let ghost p = pow2((j + 1) as nat) as int;
        proof {
            lemma_cell_step(xo, w, j as nat);
            lemma_pow2_unfold((32 - j) as nat);
            lemma_pow2_pos((31 - j) as nat);
            lemma_pow2_adds((j + 1) as nat, (31 - j) as nat);
            lemma2_to64();
            assert(p * u == SCALE);
            assert(range.high - range.low == 4 * (bound * u)) by (nonlinear_arith)
                requires
                    range.high - range.low == w * (2 * u),
                    w == 2 * bound,
            ;
            assert(w * (2 * u) == 2 * (w * u)) by (nonlinear_arith);
            assert(range.mid == range.low + w * u);
            assert((x >= range.mid) == (xo * p >= (2 * k + 1) * w)) by (nonlinear_arith)
                requires
                    x == value * SCALE,
                    xo == value + bound,
                    b == bound,
                    p * u == SCALE,
                    u > 0,
                    range.mid == -b * SCALE + k * w * (2 * u) + w * u,
            ;
        }
        let upper = range.narrow(x);
        bits.push(upper);
        j = j + 1;
        proof {
            let k2 = cell(xo, w, j as nat);
            assert(k2 == 2 * k + (if upper { 1int } else { 0int }));
            assert(range.low == -b * SCALE + k2 * w * u) by (nonlinear_arith)
                requires
                    upper ==> range.low == -b * SCALE + k * w * (2 * u) + w * u,
                    !upper ==> range.low == -b * SCALE + k * w * (2 * u),
                    k2 == 2 * k + (if upper { 1int } else { 0int }),
            ;
            assert(range.high - range.low == w * u) by (nonlinear_arith)
                requires
                    range.high - range.low == (w * (2 * u)) / 2,
            ;
            assert(axis_bit(value as int, bound as int, j - 1) == upper);
            assert(bits@ =~= axis_bits(value as int, bound as int, j as nat));
        }
    }
    bits
}

} // verus!
