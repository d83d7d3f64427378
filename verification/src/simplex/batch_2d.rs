//! Simplex noise at eight places of the plane at once.

use crate::hash;
use crate::lane_coords;
use crate::lane_coords::{hash_carried, seed_lanes, step_on};
use crate::lanes::U32x8;
use crate::simplex::grid_2d;
use crate::simplex::grid_2d::{hashed_corners, Corners, Gradients, Place};
use vstd::prelude::*;

verus! {

/// The number of the gradient at the lattice vertex `(i, j)`.
pub open spec fn vertex_number(i: int, j: int, seed: u32) -> u32 {
    hash::vertex_hash(i, j, seed) >> 29
}

/// The gradient numbers at the three corners of the triangle that each lane
/// lies in: the low corner of its cell, the corner in the middle and the high
/// corner.
pub struct CornerNumbers {
    pub lo: [u32; 8],
    pub mi: [u32; 8],
    pub hi: [u32; 8],
}

/// The vertex in the middle: past the low corner along the columns in the
/// upper triangle of a cell, along the rows in the lower one.
pub open spec fn middle(i: int, j: int, upper: bool) -> (int, int) {
    if upper {
        (i + 1, j)
    } else {
        (i, j + 1)
    }
}

/// A gradient number names one of eight gradients.
pub proof fn law_number_in_table(i: int, j: int, seed: u32)
    ensures
        vertex_number(i, j, seed) < 8,
{
    let h = hash::vertex_hash(i, j, seed);
    assert(h >> 29u32 < 8u32) by (bit_vector);
}

/// The gradient at a vertex is named by the hashes of its two coordinates, each of
/// them the hash along an axis under the whole seed: by the top three bits of
/// their product modulo 2^32, mixed with the hash of the column.
pub proof fn law_vertex_number_goes_by_place(i: int, j: int, seed: u32)
    ensures
        vertex_number(i, j, seed) as int == (((hash::axis_hash(i, seed) as int * hash::axis_hash(
            j,
            seed,
        ) as int) % 0x1_0000_0000) as u32 ^ hash::axis_hash(i, seed)) as int / 0x2000_0000,
{
    hash::law_vertex_hash_holds_the_product(i, j, seed);
    let mixed = hash::vertex_hash(i, j, seed);
    let a = hash::axis_hash(i, seed);
    let p = mixed ^ a;
    assert(p ^ a == mixed) by (bit_vector)
        requires
            p == mixed ^ a,
    ;
    assert(mixed >> 29 == mixed / 0x2000_0000) by (bit_vector);
}

/// To go `m` times as far along both axes is to take `m` times the seed, for
/// negative `m` too: the gradients have the same numbers.
pub proof fn law_noise_scales(i: int, j: int, m: int, seed: u32, scaled: u32)
    requires
        (scaled - m * seed as int) % 0x1_0000_0000 == 0,
    ensures
        vertex_number(m * i, m * j, seed) == vertex_number(i, j, scaled),
{
    hash::law_vertex_hash_scales(i, j, m, seed, scaled);
}

/// The gradients repeat after 2^32 vertices along either axis, and not by sign:
/// a vertex and the one that many steps before zero have the same number.
pub proof fn law_noise_wraps(i: int, j: int, i_turns: int, j_turns: int, seed: u32)
    ensures
        vertex_number(i + i_turns * 0x1_0000_0000, j + j_turns * 0x1_0000_0000, seed)
            == vertex_number(i, j, seed),
{
    hash::law_vertex_hash_wraps(i, j, i_turns, j_turns, seed);
}

/// Takes each lane from one register or from another.
fn select(mask: &[bool; 8], yes: &U32x8, no: &U32x8) -> (r: U32x8)
    requires
        yes@.len() == 8,
        no@.len() == 8,
    ensures
        r@ == Seq::new(
            8,
            |k: int|
                if mask[k] {
                    yes@[k]
                } else {
                    no@[k]
                },
        ),
{
    let a = yes.to_array();
    let b = no.to_array();
    let mut words: [u32; 8] = [0; 8];
    let mut k: usize = 0;
    while k < 8
        invariant
            k <= 8,
            a@ == yes@,
            b@ == no@,
            forall|j: int|
                0 <= j < k ==> #[trigger] words[j] == (if mask[j] {
                    yes@[j]
                } else {
                    no@[j]
                }),
        decreases 8 - k,
    {
        words[k] = if mask[k] {
            a[k]
        } else {
            b[k]
        };
        k = k + 1;
    }
    let r = U32x8::from_array(words);
    assert(r@ =~= Seq::new(
        8,
        |k: int|
            if mask[k] {
                yes@[k]
            } else {
                no@[k]
            },
    ));
    r
}

/// The gradient numbers that two registers of axis hashes name.
fn numbers(x_shuf: &U32x8, y_shuf: &U32x8) -> (r: [u32; 8])
    ensures
        forall|k: int|
            0 <= k < 8 ==> #[trigger] r[k] == hash::folded(x_shuf@[k], y_shuf@[k]) >> 29,
{
    let mix = x_shuf.times(y_shuf).xor(x_shuf).shifted_right(29);
    let r = mix.to_array();
    assert forall|k: int| 0 <= k < 8 implies #[trigger] r[k] == hash::folded(
        x_shuf@[k],
        y_shuf@[k],
    ) >> 29 by {
        assert(r@[k] == mix@[k]);
    }
    r
}

/// Lane `k` holds the numbers at the corners of the triangle that a place in cell
/// `(i, j)` lies in.
pub open spec fn numbered(
    found: CornerNumbers,
    seed: u32,
    i: int,
    j: int,
    upper: bool,
    k: int,
) -> bool {
    let (mi, mj) = middle(i, j, upper);
    &&& found.lo[k] == vertex_number(i, j, seed)
    &&& found.mi[k] == vertex_number(mi, mj, seed)
    &&& found.hi[k] == vertex_number(i + 1, j + 1, seed)
}

/// The three numbers of a lane are those of the vertex that its cell begins at, of
/// the vertex across the cell, and of the vertex one step from the first: along
/// the columns for a place in the upper triangle, along the rows for one in the
/// lower.
pub proof fn law_numbers_stand_at_the_corners(
    found: CornerNumbers,
    seed: u32,
    i: int,
    j: int,
    upper: bool,
    k: int,
)
    requires
        numbered(found, seed, i, j, upper, k),
    ensures
        found.lo[k] == vertex_number(i, j, seed),
        upper ==> found.mi[k] == vertex_number(i + 1, j, seed),
        !upper ==> found.mi[k] == vertex_number(i, j + 1, seed),
        found.hi[k] == vertex_number(i + 1, j + 1, seed),
{
}

/// Finds the gradients at the corners of the triangle that each lane lies in.
/// A lane lies in cell `(xs, ys)`, in its upper triangle where `upper` says so.
pub fn corner_numbers(seed: u32, xs: [i32; 8], ys: [i32; 8], upper: [bool; 8]) -> (r: CornerNumbers)
    ensures
        forall|k: int|
            0 <= k < 8 ==> #[trigger] numbered(
                r,
                seed,
                xs[k] as int,
                ys[k] as int,
                upper[k],
                k,
            ),
{
    let x1 = seed_lanes(&xs, seed);
    let y1 = seed_lanes(&ys, seed);
    let x2 = step_on(&x1, seed, Ghost(xs), Ghost(0));
    let y2 = step_on(&y1, seed, Ghost(ys), Ghost(0));
    let x1_shuf = hash_carried(&x1, Ghost(xs), Ghost(0), Ghost(seed));
    let y1_shuf = hash_carried(&y1, Ghost(ys), Ghost(0), Ghost(seed));
    let x2_shuf = hash_carried(&x2, Ghost(xs), Ghost(1), Ghost(seed));
    let y2_shuf = hash_carried(&y2, Ghost(ys), Ghost(1), Ghost(seed));
    let x_shuf_mi = select(&upper, &x2_shuf, &x1_shuf);
    let y_shuf_mi = select(&upper, &y1_shuf, &y2_shuf);
    let r = CornerNumbers {
        lo: numbers(&x1_shuf, &y1_shuf),
        mi: numbers(&x_shuf_mi, &y_shuf_mi),
        hi: numbers(&x2_shuf, &y2_shuf),
    };
    proof {
        assert forall|k: int| 0 <= k < 8 implies #[trigger] numbered(
            r,
            seed,
            xs[k] as int,
            ys[k] as int,
            upper[k],
            k,
        ) by {
            assert(x1_shuf@[k] == hash::axis_hash(xs[k] + 0, seed));
            assert(y1_shuf@[k] == hash::axis_hash(ys[k] + 0, seed));
            assert(x2_shuf@[k] == hash::axis_hash(xs[k] + 1, seed));
            assert(y2_shuf@[k] == hash::axis_hash(ys[k] + 1, seed));
            assert(r.lo[k] == hash::folded(x1_shuf@[k], y1_shuf@[k]) >> 29);
            assert(r.mi[k] == hash::folded(x_shuf_mi@[k], y_shuf_mi@[k]) >> 29);
            assert(r.hi[k] == hash::folded(x2_shuf@[k], y2_shuf@[k]) >> 29);
        }
    }
    r
}

/// Finds the gradients at the corners of the triangle that each of eight places
/// lies in. `value` takes them, lane by lane, and gives the values at the places.
pub fn sample_batch<T: Copy, V, W>(
    seed: u32,
    places: [Place; 8],
    gradients: &Gradients<T>,
    value: W,
) -> (r: V) where W: Fn(Vec<Corners<T>>) -> V
    requires
        forall|corners: Vec<Corners<T>>|
            grid_2d::corners_found(*gradients, seed, places, corners@)
                ==> #[trigger] value.requires((corners,)),
    ensures
        exists|corners: Vec<Corners<T>>|
            grid_2d::corners_found(*gradients, seed, places, corners@)
                && #[trigger] value.ensures((corners,), r),
{
    let corners = hashed_corners(gradients, seed, &places);
    value(corners)
}

/// A call numbers every lane.
proof fn lemma_call_numbers(
    seed: u32,
    xs: [i32; 8],
    ys: [i32; 8],
    upper: [bool; 8],
    r: CornerNumbers,
    k: int,
)
    requires
        0 <= k < 8,
        call_ensures(corner_numbers, (seed, xs, ys, upper), r),
    ensures
        numbered(r, seed, xs[k] as int, ys[k] as int, upper[k], k),
{
    let args = (seed, xs, ys, upper);
    assert(forall|n: int|
        0 <= n < 8 ==> #[trigger] numbered(
            r,
            args.0,
            args.1[n] as int,
            args.2[n] as int,
            args.3[n],
            n,
        ));
    assert(numbered(r, args.0, args.1[k] as int, args.2[k] as int, args.3[k], k));
}

/// Two calls agree wherever their cells and seeds do: a lane that goes `m` times as
/// far along both axes finds, at the low corner of its cell, the gradient that a
/// lane finds under `m` times the seed.
pub proof fn law_calls_scale(
    seed: u32,
    scaled: u32,
    m: int,
    xs: [i32; 8],
    ys: [i32; 8],
    upper: [bool; 8],
    far_xs: [i32; 8],
    far_ys: [i32; 8],
    far_upper: [bool; 8],
    r: CornerNumbers,
    q: CornerNumbers,
    k: int,
)
    requires
        (scaled - m * seed as int) % 0x1_0000_0000 == 0,
        0 <= k < 8,
        far_xs[k] == m * xs[k],
        far_ys[k] == m * ys[k],
        call_ensures(corner_numbers, (scaled, xs, ys, upper), r),
        call_ensures(corner_numbers, (seed, far_xs, far_ys, far_upper), q),
    ensures
        r.lo[k] == q.lo[k],
{
    lemma_call_numbers(scaled, xs, ys, upper, r, k);
    lemma_call_numbers(seed, far_xs, far_ys, far_upper, q, k);
    law_noise_scales(xs[k] as int, ys[k] as int, m, seed, scaled);
}

/// A call names the gradient at each corner by the hashes of the corner's own
/// coordinates: what two calls of [`hash::hash_axis`] give for them under the same
/// seed.
pub proof fn law_calls_go_by_the_axis_hashes(
    seed: u32,
    xs: [i32; 8],
    ys: [i32; 8],
    upper: [bool; 8],
    r: CornerNumbers,
    k: int,
    x_hash: u32,
    y_hash: u32,
)
    requires
        0 <= k < 8,
        call_ensures(corner_numbers, (seed, xs, ys, upper), r),
        call_ensures(hash::hash_axis, (xs[k], seed), x_hash),
        call_ensures(hash::hash_axis, (ys[k], seed), y_hash),
    ensures
        r.lo[k] as int == (((x_hash as int * y_hash as int) % 0x1_0000_0000) as u32 ^ x_hash)
            as int / 0x2000_0000,
{
    lemma_call_numbers(seed, xs, ys, upper, r, k);
    law_vertex_number_goes_by_place(xs[k] as int, ys[k] as int, seed);
}

/// What is valued at eight places are the gradients at the corners of their
/// triangles, under the very seed of the call.
pub proof fn law_calls_value_the_corners<T: Copy, V, W>(
    seed: u32,
    places: [Place; 8],
    gradients: Gradients<T>,
    value: W,
    r: V,
) where W: Fn(Vec<Corners<T>>) -> V
    requires
        call_ensures(sample_batch::<T, V, W>, (seed, places, &gradients, value), r),
    ensures
        exists|corners: Vec<Corners<T>>|
            {
                &&& #[trigger] value.ensures((corners,), r)
                &&& corners@.len() == 8
                &&& forall|k: int|
                    0 <= k < 8 ==> {
                        &&& (#[trigger] corners@[k]).lo == gradients.at(
                            places[k].i as int,
                            places[k].j as int,
                            seed,
                        )
                        &&& corners@[k].mi == (if places[k].upper {
                            gradients.at(places[k].i + 1, places[k].j as int, seed)
                        } else {
                            gradients.at(places[k].i as int, places[k].j + 1, seed)
                        })
                        &&& corners@[k].hi == gradients.at(
                            places[k].i + 1,
                            places[k].j + 1,
                            seed,
                        )
                    }
            },
{
    let corners = choose|corners: Vec<Corners<T>>|
        grid_2d::corners_found(gradients, seed, places, corners@) && #[trigger] value.ensures(
            (corners,),
            r,
        );
    assert forall|k: int| 0 <= k < 8 implies {
        &&& (#[trigger] corners@[k]).lo == gradients.at(
            places[k].i as int,
            places[k].j as int,
            seed,
        )
        &&& corners@[k].mi == (if places[k].upper {
            gradients.at(places[k].i + 1, places[k].j as int, seed)
        } else {
            gradients.at(places[k].i as int, places[k].j + 1, seed)
        })
        &&& corners@[k].hi == gradients.at(places[k].i + 1, places[k].j + 1, seed)
    } by {
        grid_2d::law_chunk_takes_the_corners(gradients, seed, places, corners@, k);
    }
}

} // verus!
