//! Periods of the lattice.
//!
//! A tiled axis repeats after a number of lattice steps: its coordinates are
//! reduced modulo that period before they are hashed.

use vstd::arithmetic::div_mod::*;
use vstd::prelude::*;

verus! {

/// The `i32` that is congruent to `v` modulo 2^32.
pub open spec fn wrapped(v: int) -> int {
    (v + 0x8000_0000) % 0x1_0000_0000 - 0x8000_0000
}

/// A row or layer coordinate, reduced modulo the axis period read as an `i32`.
pub open spec fn tiled(c: int, tiling: Option<u32>) -> int {
    match tiling {
        None => c,
        Some(t) => c % ((t as i32) as int),
    }
}

/// Whether an axis period can be divided by.
pub open spec fn divides(tiling: Option<u32>) -> bool {
    tiling matches Some(t) ==> t as i32 != 0
}

/// The coordinate of column `i` of a row that starts at `start`: columns wrap
/// around the `i32` range, and a tiled axis is reduced modulo its period.
pub open spec fn column(start: i32, tiling: Option<u32>, i: int) -> int {
    match tiling {
        None => start + i,
        Some(t) => wrapped(start + i) % (t as int),
    }
}

pub(crate) proof fn lemma_wrapped_step(v: int)
    ensures
        wrapped(v + 1) == (if wrapped(v) == i32::MAX {
            i32::MIN as int
        } else {
            wrapped(v) + 1
        }),
{
}

/// Wrapping addition steps along the wrapped coordinates.
pub(crate) proof fn lemma_wrapped_add(v: int, k: i32)
    ensures
        (wrapped(v) as i32).wrapping_add(k) == wrapped(v + k),
{
    lemma_wrapped_in_range(v);
}

pub(crate) proof fn lemma_wrapped_in_range(v: int)
    ensures
        i32::MIN <= wrapped(v) <= i32::MAX,
        i32::MIN <= v <= i32::MAX ==> wrapped(v) == v,
{
}

/// A tiled axis repeats: coordinates one period apart are the same lattice
/// coordinate.
pub(crate) proof fn lemma_tiled_periodic(c: int, t: u32)
    requires
        t as i32 != 0,
    ensures
        tiled(c + (t as i32) as int, Some(t)) == tiled(c, Some(t)),
        0 <= tiled(c, Some(t)),
        t as i32 > 0 ==> tiled(c, Some(t)) < t as i32,
{
    let m = (t as i32) as int;
    if m > 0 {
        lemma_mod_add_multiples_vanish(c, m);
    } else {
        let q = c / m;
        let q2 = (c + m) / m;
        assert(c == m * q + c % m) by (nonlinear_arith)
            requires
                m < 0,
                q == c / m,
        ;
        assert(0 <= c % m < -m) by (nonlinear_arith)
            requires
                m < 0,
        ;
        assert(c + m == m * q2 + (c + m) % m) by (nonlinear_arith)
            requires
                m < 0,
                q2 == (c + m) / m,
        ;
        assert(0 <= (c + m) % m < -m) by (nonlinear_arith)
            requires
                m < 0,
        ;
        assert(q2 == q + 1) by (nonlinear_arith)
            requires
                m < 0,
                c == m * q + c % m,
                0 <= c % m < -m,
                c + m == m * q2 + (c + m) % m,
                0 <= (c + m) % m < -m,
        ;
        assert(m * (q + 1) == m * q + m) by (nonlinear_arith);
    }
}

/// The columns of a tiled row repeat after one period, as long as they stay in
/// the `i32` range.
pub(crate) proof fn lemma_columns_periodic(start: i32, t: u32, i: int)
    requires
        t > 0,
        i32::MIN <= start + i,
        start + i + t <= i32::MAX,
    ensures
        column(start, Some(t), i + t) == column(start, Some(t), i),
{
    lemma_wrapped_in_range(start + i);
    lemma_wrapped_in_range(start + i + t);
    lemma_mod_add_multiples_vanish(start + i, t as int);
}

/// Remainders are unique: `r` is the remainder of `c` exactly where it lies
/// between zero and the divisor and differs from `c` by a multiple of it.
pub(crate) proof fn lemma_remainder_iff(c: int, m: int, r: int)
    requires
        m > 0,
    ensures
        r == c % m <==> 0 <= r < m && (c - r) % m == 0,
{
    lemma_mod_bound(c, m);
    if r == c % m {
        lemma_fundamental_div_mod(c, m);
        assert(c - r == (c / m) * m) by (nonlinear_arith)
            requires
                c == m * (c / m) + r,
        ;
        lemma_mod_multiples_basic(c / m, m);
    }
    if 0 <= r < m && (c - r) % m == 0 {
        let q = (c - r) / m;
        lemma_fundamental_div_mod(c - r, m);
        assert(c == q * m + r) by (nonlinear_arith)
            requires
                c - r == m * q + 0,
        ;
        lemma_fundamental_div_mod_converse(c, m, q, r);
    }
}

/// The remainder by a negative number is that by its opposite.
proof fn lemma_remainder_of_opposite(c: int, m: int)
    requires
        m < 0,
    ensures
        c % m == c % (-m),
{
    let q = c / m;
    let r = c % m;
    assert(c == m * q + r && 0 <= r < -m) by (nonlinear_arith)
        requires
            m < 0,
            q == c / m,
            r == c % m,
    ;
    assert(c == (-q) * (-m) + r) by (nonlinear_arith)
        requires
            c == m * q + r,
    ;
    lemma_fundamental_div_mod_converse(c, -m, -q, r);
}

/// Two numbers with the same remainder differ by a multiple of the divisor, and
/// the other way round.
pub(crate) proof fn lemma_same_remainder_iff(c: int, d: int, m: int)
    requires
        m > 0,
    ensures
        c % m == d % m <==> (c - d) % m == 0,
{
    lemma_fundamental_div_mod(c, m);
    lemma_fundamental_div_mod(d, m);
    lemma_mod_bound(d, m);
    if c % m == d % m {
        assert(c - d == (c / m - d / m) * m) by (nonlinear_arith)
            requires
                c == m * (c / m) + c % m,
                d == m * (d / m) + d % m,
                c % m == d % m,
        ;
        lemma_mod_multiples_basic(c / m - d / m, m);
    }
    if (c - d) % m == 0 {
        let q = (c - d) / m;
        lemma_fundamental_div_mod(c - d, m);
        assert(c == (q + d / m) * m + d % m) by (nonlinear_arith)
            requires
                c - d == m * q + 0,
                d == m * (d / m) + d % m,
        ;
        lemma_fundamental_div_mod_converse(c, m, q + d / m, d % m);
    }
}

/// A wrapped coordinate is the one `i32` that differs from it by a multiple of
/// 2^32.
pub proof fn law_wrapped_is_the_i32(v: int, w: int)
    ensures
        w == wrapped(v) <==> i32::MIN <= w <= i32::MAX && (v - w) % 0x1_0000_0000 == 0,
{
}

/// A row or layer coordinate of an axis that is not tiled stays as it is. On a
/// tiled axis it becomes the one number from zero up to the period that lies a
/// multiple of the period away. Periods of 2^31 and more count as `i32` does:
/// by how far they are short of 2^32.
pub proof fn law_tiled_is_the_residue(c: int, t: u32, period: int, r: int)
    requires
        t > 0,
        period == (if t < 0x8000_0000 {
            t as int
        } else {
            0x1_0000_0000 - t
        }),
    ensures
        tiled(c, None) == c,
        r == tiled(c, Some(t)) <==> 0 <= r < period && (c - r) % period == 0,
{
    assert(t < 0x8000_0000 ==> (t as i32) as int == t as int) by (bit_vector);
    assert(t >= 0x8000_0000 ==> (t as i32) as int == t as int - 0x1_0000_0000) by (bit_vector);
    if t >= 0x8000_0000 {
        lemma_remainder_of_opposite(c, (t as i32) as int);
    }
    lemma_remainder_iff(c, period, r);
}

/// Two row or layer coordinates of a tiled axis become the same exactly where
/// they lie a multiple of the period apart.
pub proof fn law_tiled_coincide(c: int, d: int, t: u32, period: int)
    requires
        t > 0,
        period == (if t < 0x8000_0000 {
            t as int
        } else {
            0x1_0000_0000 - t
        }),
    ensures
        tiled(c, Some(t)) == tiled(d, Some(t)) <==> (c - d) % period == 0,
{
    law_tiled_is_the_residue(c, t, period, tiled(c, Some(t)));
    law_tiled_is_the_residue(d, t, period, tiled(d, Some(t)));
    lemma_remainder_iff(c, period, tiled(c, Some(t)));
    lemma_remainder_iff(d, period, tiled(d, Some(t)));
    lemma_same_remainder_iff(c, d, period);
}

/// A column of a row that is not tiled lies as many steps from the start as it
/// has columns before it. In a tiled row it is the one number from zero up to
/// the period that lies a multiple of the period away from the `i32` that the
/// column wraps to.
pub proof fn law_column_is_the_residue(start: i32, t: u32, i: int, place: int, r: int)
    requires
        t > 0,
        i32::MIN <= place <= i32::MAX,
        (start + i - place) % 0x1_0000_0000 == 0,
    ensures
        column(start, None, i) == start + i,
        r == column(start, Some(t), i) <==> 0 <= r < t && (place - r) % (t as int) == 0,
{
    law_wrapped_is_the_i32(start + i, place);
    lemma_remainder_iff(place, t as int, r);
}

/// Two columns of a tiled row share a coordinate exactly where they lie a
/// multiple of the period apart, as long as both lie in the `i32` range.
pub proof fn law_columns_coincide(start: i32, t: u32, i: int, j: int)
    requires
        t > 0,
        i32::MIN <= start + i <= i32::MAX,
        i32::MIN <= start + j <= i32::MAX,
    ensures
        column(start, Some(t), i) == column(start, Some(t), j) <==> (i - j) % (t as int) == 0,
{
    lemma_wrapped_in_range(start + i);
    lemma_wrapped_in_range(start + j);
    lemma_same_remainder_iff(start + i, start + j, t as int);
    assert(start + i - (start + j) == i - j);
}

/// Coordinate `c` stands for a place along the rows or layers: it differs from
/// the place by a multiple of 2^32 where the axis is not tiled, and is what the
/// place leaves modulo the period where it is. Periods of 2^31 and more count by
/// how far they are short of 2^32.
pub open spec fn stands_for(c: int, place: int, tiling: Option<u32>) -> bool {
    match tiling {
        None => (place - c) % 0x1_0000_0000 == 0,
        Some(t) => {
            let period = if t < 0x8000_0000 {
                t as int
            } else {
                0x1_0000_0000 - t
            };
            0 <= c < period && (place - c) % period == 0
        },
    }
}

/// Coordinate `c` stands for a place along the columns: it differs from the place
/// by a multiple of 2^32 where the axis is not tiled, and is what the place leaves
/// modulo the period where it is. Places past the ends of the `i32` range come in
/// at the other end.
pub open spec fn column_stands_for(c: int, place: int, tiling: Option<u32>) -> bool {
    match tiling {
        None => (place - c) % 0x1_0000_0000 == 0,
        Some(t) => {
            let inside = (place + 0x8000_0000) % 0x1_0000_0000 - 0x8000_0000;
            0 <= c < t && (inside - c) % (t as int) == 0
        },
    }
}

/// Which coordinates stand for a place. Without a period they are those that lie a
/// multiple of 2^32 away; with a period there is one, from zero up to the period
/// and a multiple of the period away. Along the rows and layers a period of 2^31
/// or more counts by how far it is short of 2^32; along the columns it counts in
/// full, and the place is first brought into the `i32` range.
pub proof fn law_coordinates_stand_for_places(c: int, place: int, inside: int, t: u32)
    requires
        i32::MIN <= inside <= i32::MAX,
        (place - inside) % 0x1_0000_0000 == 0,
    ensures
        stands_for(c, place, None) <==> (place - c) % 0x1_0000_0000 == 0,
        column_stands_for(c, place, None) <==> (place - c) % 0x1_0000_0000 == 0,
        t < 0x8000_0000 ==> (stands_for(c, place, Some(t)) <==> 0 <= c < t && (place - c) % (
        t as int) == 0),
        t >= 0x8000_0000 ==> (stands_for(c, place, Some(t)) <==> 0 <= c < 0x1_0000_0000 - t && (
        place - c) % (0x1_0000_0000 - t) == 0),
        column_stands_for(c, place, Some(t)) <==> 0 <= c < t && (inside - c) % (t as int) == 0,
{
}

/// A coordinate that stands for a place hashes as the tiled place does.
pub(crate) proof fn lemma_stands_for(c: int, place: int, tiling: Option<u32>, seed: u32)
    requires
        stands_for(c, place, tiling),
    ensures
        crate::hash::axis_hash(tiled(place, tiling), seed) == crate::hash::axis_hash(c, seed),
        tiling is Some ==> tiled(place, tiling) == c,
{
    match tiling {
        None => {
            lemma_same_remainder_iff(place, c, 0x1_0000_0000);
            crate::hash::lemma_axis_hash_wraps(place, c, seed);
        },
        Some(t) => {
            let period = if t < 0x8000_0000 {
                t as int
            } else {
                0x1_0000_0000 - t
            };
            law_tiled_is_the_residue(place, t, period, c);
        },
    }
}

/// Every place of an axis has a coordinate that stands for it.
pub(crate) proof fn lemma_tiled_stands(place: int, tiling: Option<u32>)
    requires
        tiling matches Some(t) ==> t > 0,
    ensures
        stands_for(tiled(place, tiling), place, tiling),
{
    if let Some(t) = tiling {
        let period = if t < 0x8000_0000 {
            t as int
        } else {
            0x1_0000_0000 - t
        };
        law_tiled_is_the_residue(place, t, period, tiled(place, tiling));
    }
}

/// Reduces a row or layer coordinate modulo the axis period.
pub fn tile(c: i32, tiling: Option<u32>) -> (r: i32)
    requires
        divides(tiling),
    ensures
        r == tiled(c as int, tiling),
{
    match tiling {
        None => c,
        Some(t) => match c.checked_rem_euclid(t as i32) {
            Some(r) => r,
            None => {
                assert(c as int % (-1int) == 0) by (nonlinear_arith);
                0
            },
        },
    }
}

/// Reduces a column coordinate modulo the axis period.
pub(crate) fn tile_column(c: i32, period: u32) -> (r: u32)
    requires
        period > 0,
    ensures
        r == c as int % period as int,
{
    match (c as i64).checked_rem_euclid(period as i64) {
        Some(r) => r as u32,
        None => 0,
    }
}

/// A coordinate that was reduced lies from zero up to the period and a multiple of
/// the period away from where it was; two coordinates are reduced to the same one
/// exactly if they lie a multiple of the period apart. Without a period nothing is
/// reduced.
pub proof fn law_calls_reduce_modulo_the_period(
    c: i32,
    d: i32,
    t: u32,
    r: i32,
    q: i32,
    same: i32,
)
    requires
        0 < t < 0x8000_0000,
        call_ensures(tile, (c, Some(t)), r),
        call_ensures(tile, (d, Some(t)), q),
        call_ensures(tile, (c, None), same),
    ensures
        0 <= r < t,
        (c - r) % (t as int) == 0,
        r == q <==> (c - d) % (t as int) == 0,
        same == c,
{
    law_tiled_is_the_residue(c as int, t, t as int, r as int);
    law_tiled_coincide(c as int, d as int, t, t as int);
}

} // verus!
