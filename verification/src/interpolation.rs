//! Cutting the rows of a grid into blocks of registers.
//!
//! A row is taken in groups of `num_blocks` registers. What is left at its end
//! is the tail: one last group, with as many registers as it takes to hold it,
//! the last of them perhaps not full.

use vstd::arithmetic::div_mod::*;
use vstd::arithmetic::mul::*;
use vstd::prelude::*;

verus! {

/// How a row is cut into groups of registers.
#[derive(Clone, Copy)]
pub struct InterpolationConfig {
    /// Registers in a full group.
    pub num_blocks: usize,
    /// Lanes of a register.
    pub lanes: usize,
    /// Samples in a full group.
    pub block_lanes: usize,
    /// Where the tail begins.
    pub block_tail_start: usize,
    /// Registers in the tail.
    pub block_tail_size: usize,
    /// Samples in the tail.
    pub tail_size: usize,
    pub has_block_head: bool,
    pub has_block_tail: bool,
}

impl InterpolationConfig {
    /// The configuration cuts rows of `width` samples.
    pub open spec fn wf(self, width: int) -> bool {
        &&& self.num_blocks > 0
        &&& self.lanes > 0
        &&& self.block_lanes == self.num_blocks * self.lanes
        &&& self.block_tail_start == width - width % (self.block_lanes as int)
        &&& self.tail_size == width % (self.block_lanes as int)
        &&& self.block_tail_size == (self.tail_size + self.lanes - 1) / (self.lanes as int)
        &&& self.has_block_head == (self.block_tail_start > 0)
        &&& self.has_block_tail == (self.tail_size > 0)
    }

    /// Cuts rows of `width` samples into groups of `num_blocks` registers of
    /// `lanes` lanes.
    pub fn new(num_blocks: usize, lanes: usize, width: usize) -> (r: Self)
        requires
            num_blocks > 0,
            lanes > 0,
            num_blocks * lanes <= usize::MAX,
        ensures
            r.wf(width as int),
            r.num_blocks == num_blocks,
            r.lanes == lanes,
    {
        let block_lanes: usize = num_blocks * lanes;
        proof {
            assert(num_blocks * lanes > 0) by (nonlinear_arith)
                requires
                    num_blocks > 0,
                    lanes > 0,
            ;
        }
        let tail_size: usize = width % block_lanes;
        let full: usize = tail_size / lanes;
        let block_tail_size: usize = if tail_size % lanes > 0 {
            proof {
                lemma_div_is_ordered_by_denominator(tail_size as int, 1, lanes as int);
            }
            full + 1
        } else {
            full
        };
        proof {
            let t = tail_size as int;
            let l = lanes as int;
            lemma_mod_decreases(width as nat, block_lanes as nat);
            lemma_fundamental_div_mod(t, l);
            let q = t / l;
            let m = t % l;
            if m > 0 {
                assert(t + l - 1 == l * (q + 1) + (m - 1)) by (nonlinear_arith)
                    requires
                        t == l * q + m,
                ;
                lemma_fundamental_div_mod_converse(t + l - 1, l, q + 1, m - 1);
            } else {
                lemma_fundamental_div_mod_converse(t + l - 1, l, q, l - 1);
            }
        }
        InterpolationConfig {
            num_blocks,
            lanes,
            block_lanes,
            block_tail_start: width - tail_size,
            block_tail_size,
            tail_size,
            has_block_head: width - tail_size > 0,
            has_block_tail: tail_size > 0,
        }
    }

    /// Registers in a group.
    pub open spec fn blocks(self, tail: bool) -> int {
        if tail {
            self.block_tail_size as int
        } else {
            self.num_blocks as int
        }
    }

    /// Samples in register `b` of a group.
    pub open spec fn block_len(self, tail: bool, b: int) -> int {
        if tail && self.tail_size - b * self.lanes < self.lanes {
            self.tail_size - b * self.lanes
        } else {
            self.lanes as int
        }
    }

    /// Whether a group starts at `x`.
    pub open spec fn group_starts(self, tail: bool, x: int) -> bool {
        if tail {
            self.has_block_tail && x == self.block_tail_start
        } else {
            0 <= x < self.block_tail_start && x % (self.block_lanes as int) == 0
        }
    }

    /// Register `b` of the group at `x` holds column `s`.
    pub open spec fn holds(self, tail: bool, x: int, b: int, s: int) -> bool {
        &&& self.group_starts(tail, x)
        &&& 0 <= b < self.blocks(tail)
        &&& x + b * self.lanes <= s < x + b * self.lanes + self.block_len(tail, b)
    }

    /// Where the samples of a register lie: inside its group, and inside the
    /// row.
    pub(crate) proof fn lemma_block_inside(self, width: int, tail: bool, x: int, b: int)
        requires
            self.wf(width),
            width >= 0,
            self.group_starts(tail, x),
            0 <= b < self.blocks(tail),
        ensures
            0 <= b * self.lanes,
            0 < self.block_len(tail, b) <= self.lanes,
            b * self.lanes + self.block_len(tail, b) <= self.block_lanes,
            x + b * self.lanes + self.block_len(tail, b) <= width,
    {
        let l = self.lanes as int;
        let n = self.num_blocks as int;
        let bl = self.block_lanes as int;
        let t = self.tail_size as int;
        assert(bl > 0) by (nonlinear_arith)
            requires
                bl == n * l,
                n > 0,
                l > 0,
        ;
        lemma_mod_bound(width, bl);
        assert(0 <= b * l) by (nonlinear_arith)
            requires
                0 <= b,
                0 < l,
        ;
        if tail {
            let k = self.block_tail_size as int;
            lemma_fundamental_div_mod(t + l - 1, l);
            lemma_mod_bound(t + l - 1, l);
            assert(b * l <= (k - 1) * l) by (nonlinear_arith)
                requires
                    b <= k - 1,
                    l > 0,
            ;
            assert((k - 1) * l == l * k - l) by (nonlinear_arith);
            assert(b * l < t);
        } else {
            assert(b * l + l <= n * l) by (nonlinear_arith)
                requires
                    b + 1 <= n,
                    l > 0,
            ;
            self.lemma_full_group_fits(width, x);
        }
    }

    /// A full group ends before the tail begins.
    pub(crate) proof fn lemma_full_group_fits(self, width: int, x: int)
        requires
            self.wf(width),
            width >= 0,
            self.group_starts(false, x),
        ensures
            self.block_lanes > 0,
            x + self.block_lanes <= self.block_tail_start,
    {
        let bl = self.block_lanes as int;
        let n = self.num_blocks as int;
        let l = self.lanes as int;
        assert(bl > 0) by (nonlinear_arith)
            requires
                bl == n * l,
                n > 0,
                l > 0,
        ;
        lemma_fundamental_div_mod(width, bl);
        lemma_fundamental_div_mod(x, bl);
        let p = x / bl;
        let q = width / bl;
        assert(p + 1 <= q) by (nonlinear_arith)
            requires
                x == bl * p,
                x < bl * q,
                bl > 0,
        ;
        assert(bl * (p + 1) <= bl * q) by (nonlinear_arith)
            requires
                p + 1 <= q,
                bl > 0,
        ;
        assert(bl * (p + 1) == bl * p + bl) by (nonlinear_arith);
    }
}

/// A row is cut into full groups and a tail shorter than a group; the tail takes
/// just as many registers as hold it.
pub proof fn law_row_is_groups_and_a_tail(cfg: InterpolationConfig, width: int)
    requires
        cfg.wf(width),
        0 <= width,
    ensures
        cfg.block_lanes == cfg.num_blocks * cfg.lanes,
        cfg.block_tail_start + cfg.tail_size == width,
        exists|groups: int| cfg.block_tail_start == #[trigger] (groups * cfg.block_lanes),
        0 <= cfg.tail_size < cfg.block_lanes,
        cfg.tail_size <= cfg.block_tail_size * cfg.lanes < cfg.tail_size + cfg.lanes,
        cfg.has_block_head <==> cfg.block_lanes <= width,
        cfg.has_block_tail <==> cfg.tail_size > 0,
{
    let l = cfg.lanes as int;
    let n = cfg.num_blocks as int;
    let bl = cfg.block_lanes as int;
    assert(bl > 0) by (nonlinear_arith)
        requires
            bl == n * l,
            n > 0,
            l > 0,
    ;
    lemma_fundamental_div_mod(width, bl);
    lemma_mod_bound(width, bl);
    let q = width / bl;
    lemma_mul_is_commutative(bl, q);
    assert(cfg.block_tail_start == q * cfg.block_lanes);
    assert(q * bl > 0 ==> q * bl >= bl) by (nonlinear_arith)
        requires
            bl > 0,
    ;
    assert(q * bl <= 0 && width >= 0 ==> q * bl == 0 || q < 0) by (nonlinear_arith)
        requires
            bl > 0,
    ;
    let t = cfg.tail_size as int;
    lemma_fundamental_div_mod(t + l - 1, l);
    lemma_mod_bound(t + l - 1, l);
    lemma_mul_is_commutative(l, (t + l - 1) / l);
}

/// Every column of a row is held by exactly one register of exactly one group.
pub proof fn law_every_column_in_one_block(cfg: InterpolationConfig, width: int, s: int)
    requires
        cfg.wf(width),
        0 <= s < width,
    ensures
        exists|tail: bool, x: int, b: int| cfg.holds(tail, x, b, s),
        forall|tail: bool, x: int, b: int, tail2: bool, x2: int, b2: int|
            cfg.holds(tail, x, b, s) && cfg.holds(tail2, x2, b2, s) ==> tail == tail2 && x == x2
                && b == b2,
{
    let l = cfg.lanes as int;
    let n = cfg.num_blocks as int;
    let bl = cfg.block_lanes as int;
    assert(bl > 0) by (nonlinear_arith)
        requires
            bl == n * l,
            n > 0,
            l > 0,
    ;
    lemma_fundamental_div_mod(width, bl);
    lemma_mod_bound(width, bl);
    if s < cfg.block_tail_start {
        lemma_fundamental_div_mod(s, bl);
        lemma_mod_bound(s, bl);
        let x = bl * (s / bl);
        lemma_mul_is_commutative(bl, s / bl);
        lemma_mod_multiples_basic(s / bl, bl);
        let o = s - x;
        lemma_fundamental_div_mod(o, l);
        lemma_mod_bound(o, l);
        let b = o / l;
        lemma_div_pos_is_pos(s, bl);
        assert(x >= 0) by (nonlinear_arith)
            requires
                x == bl * (s / bl),
                bl > 0,
                s / bl >= 0,
        ;
        lemma_div_pos_is_pos(o, l);
        assert(b < n) by (nonlinear_arith)
            requires
                l * b <= o,
                o < n * l,
                l > 0,
        ;
        lemma_mul_is_commutative(l, b);
        assert(cfg.holds(false, x, b, s));
    } else {
        let x = cfg.block_tail_start as int;
        let o = s - x;
        let t = cfg.tail_size as int;
        lemma_fundamental_div_mod(o, l);
        lemma_mod_bound(o, l);
        let b = o / l;
        lemma_div_pos_is_pos(o, l);
        lemma_mul_is_commutative(l, b);
        let k = cfg.block_tail_size as int;
        lemma_fundamental_div_mod(t + l - 1, l);
        lemma_mod_bound(t + l - 1, l);
        assert(b < k) by (nonlinear_arith)
            requires
                l * b <= o,
                o < t,
                t <= l * k,
                l > 0,
        ;
        assert(cfg.holds(true, x, b, s));
    }
    assert forall|tail: bool, x: int, b: int, tail2: bool, x2: int, b2: int|
        cfg.holds(tail, x, b, s) && cfg.holds(tail2, x2, b2, s) implies tail == tail2 && x == x2
        && b == b2 by {
        cfg.lemma_block_inside(width, tail, x, b);
        cfg.lemma_block_inside(width, tail2, x2, b2);
        if !tail {
            cfg.lemma_full_group_fits(width, x);
        }
        if !tail2 {
            cfg.lemma_full_group_fits(width, x2);
        }
        assert(tail == tail2);
        if !tail {
            lemma_fundamental_div_mod(x, bl);
            lemma_fundamental_div_mod(x2, bl);
            let p = x / bl;
            let p2 = x2 / bl;
            assert(p == p2) by (nonlinear_arith)
                requires
                    bl * p <= s,
                    s < bl * p + bl,
                    bl * p2 <= s,
                    s < bl * p2 + bl,
                    bl > 0,
            ;
        }
        assert(x == x2);
        assert(b == b2) by (nonlinear_arith)
            requires
                b * l <= s - x,
                s - x < b * l + l,
                b2 * l <= s - x,
                s - x < b2 * l + l,
                l > 0,
        ;
    }
}

/// Where the first group starts.
pub open spec fn first_group(cfg: InterpolationConfig, tail: bool) -> int {
    if tail {
        cfg.block_tail_start as int
    } else {
        0
    }
}

/// Number of groups.
pub open spec fn group_count(cfg: InterpolationConfig, tail: bool) -> int {
    if tail {
        if cfg.has_block_tail {
            1
        } else {
            0
        }
    } else {
        cfg.block_tail_start as int / cfg.block_lanes as int
    }
}

/// Samples of a group.
pub open spec fn group_len(cfg: InterpolationConfig, tail: bool) -> int {
    if tail {
        cfg.tail_size as int
    } else {
        cfg.block_lanes as int
    }
}

/// The columns that the full groups hold, or those that the tail holds.
pub open spec fn in_part(cfg: InterpolationConfig, width: int, tail: bool, s: int) -> bool {
    if tail {
        cfg.block_tail_start <= s < width
    } else {
        0 <= s < cfg.block_tail_start
    }
}

/// The groups of a strip start where they are counted.
pub(crate) proof fn lemma_group_starts(cfg: InterpolationConfig, width: int, tail: bool, m: int)
    requires
        cfg.wf(width),
        width >= 0,
        0 <= m < group_count(cfg, tail),
    ensures
        0 <= m * cfg.block_lanes,
        cfg.block_lanes > 0,
        cfg.group_starts(tail, first_group(cfg, tail) + m * cfg.block_lanes),
        !tail ==> (m + 1 < group_count(cfg, tail) <==> (m + 1) * cfg.block_lanes
            < cfg.block_tail_start),
        !tail ==> (m + 1) * cfg.block_lanes <= cfg.block_tail_start,
        (m + 1) * cfg.block_lanes == m * cfg.block_lanes + cfg.block_lanes,
{
    let bl = cfg.block_lanes as int;
    let n = cfg.num_blocks as int;
    let l = cfg.lanes as int;
    assert(bl > 0) by (nonlinear_arith)
        requires
            bl == n * l,
            n > 0,
            l > 0,
    ;
    assert(0 <= m * bl) by (nonlinear_arith)
        requires
            0 <= m,
            0 < bl,
    ;
    assert((m + 1) * bl == m * bl + bl) by (nonlinear_arith);
    if !tail {
        lemma_strip_is_full(cfg, width);
        let q = group_count(cfg, false);
        lemma_mod_multiples_basic(m, bl);
        assert((m + 1) * bl <= q * bl) by (nonlinear_arith)
            requires
                m + 1 <= q,
                bl > 0,
        ;
        assert(m + 1 < q <==> (m + 1) * bl < q * bl) by (nonlinear_arith)
            requires
                bl > 0,
        ;
    }
}

/// The full groups fill everything before the tail.
pub(crate) proof fn lemma_strip_is_full(cfg: InterpolationConfig, width: int)
    requires
        cfg.wf(width),
        width >= 0,
    ensures
        group_count(cfg, false) * cfg.block_lanes == cfg.block_tail_start,
        group_count(cfg, false) >= 0,
        group_count(cfg, false) == 0 <==> cfg.block_tail_start == 0,
{
    let bl = cfg.block_lanes as int;
    let n = cfg.num_blocks as int;
    let l = cfg.lanes as int;
    assert(bl > 0) by (nonlinear_arith)
        requires
            bl == n * l,
            n > 0,
            l > 0,
    ;
    lemma_fundamental_div_mod(width, bl);
    let q = width / bl;
    lemma_mul_is_commutative(bl, q);
    lemma_div_multiples_vanish(q, bl);
    lemma_div_pos_is_pos(width, bl);
    assert(q == 0 <==> q * bl == 0) by (nonlinear_arith)
        requires
            bl > 0,
    ;
}

/// A strip without groups writes nothing.
pub(crate) proof fn lemma_empty_strips(cfg: InterpolationConfig, width: int)
    requires
        cfg.wf(width),
        width >= 0,
    ensures
        !cfg.has_block_head ==> group_count(cfg, false) == 0,
        !cfg.has_block_tail ==> group_count(cfg, true) == 0,
{
    lemma_strip_is_full(cfg, width);
}

/// A group lies inside its row.
pub(crate) proof fn lemma_group_inside(cfg: InterpolationConfig, width: int, tail: bool, x: int)
    requires
        cfg.wf(width),
        width >= 0,
        cfg.group_starts(tail, x),
    ensures
        0 <= x,
        x + group_len(cfg, tail) <= width,
{
    let bl = cfg.block_lanes as int;
    let n = cfg.num_blocks as int;
    let l = cfg.lanes as int;
    assert(bl > 0) by (nonlinear_arith)
        requires
            bl == n * l,
            n > 0,
            l > 0,
    ;
    lemma_mod_bound(width, bl);
    if !tail {
        cfg.lemma_full_group_fits(width, x);
    }
}

} // verus!
